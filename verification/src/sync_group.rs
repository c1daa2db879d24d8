//! A join over a fixed set of keyed results: it collects one value per key
//! and hands all of them out, once, when the last party has let go of it.

use crate::keyed::{
    assoc, entry_keys, entry_values, entry_views, key_views, lemma_assoc_absent, lemma_assoc_at,
    lemma_assoc_update, position, RequestKey,
};
use vstd::prelude::*;

verus! {

/// What a group holds for one of its keys.
pub enum CollectState<T, H> {
    /// Nothing has been heard of the request.
    Vacant,
    /// The request is under way; this is its cancellation handle.
    FetchInFlight(H),
    /// The value has arrived.
    Present(T),
}

/// The value that has arrived in a slot.
pub open spec fn present_value<T, H>(state: CollectState<T, H>) -> T {
    match state {
        CollectState::Present(value) => value,
        _ => arbitrary(),
    }
}

/// `keys` without the repetitions: each key once, at the place where it
/// first stands.
pub open spec fn distinct_keys<A>(keys: Seq<A>) -> Seq<A>
    decreases keys.len(),
{
    if keys.len() == 0 {
        Seq::empty()
    } else {
        let earlier = distinct_keys(keys.drop_last());
        if earlier.contains(keys.last()) {
            earlier
        } else {
            earlier.push(keys.last())
        }
    }
}

/// `distinct_keys` holds the same keys, each of them once.
pub proof fn lemma_distinct_keys<A>(keys: Seq<A>)
    ensures
        distinct_keys(keys).no_duplicates(),
        forall|k: A|
            #![trigger distinct_keys(keys).contains(k)]
            #![trigger keys.contains(k)]
            distinct_keys(keys).contains(k) <==> keys.contains(k),
    decreases keys.len(),
{
    let distinct = distinct_keys(keys);
    if keys.len() > 0 {
        let earlier = distinct_keys(keys.drop_last());
        lemma_distinct_keys(keys.drop_last());
        assert forall|k: A|
            #![trigger distinct.contains(k)]
            #![trigger keys.contains(k)]
            distinct.contains(k) <==> keys.contains(k) by {
            if distinct.contains(k) {
                let i = choose|i: int| 0 <= i < distinct.len() && distinct[i] == k;
                if i < earlier.len() {
                    assert(earlier.contains(k));
                    let j = choose|j: int|
                        0 <= j < keys.drop_last().len() && keys.drop_last()[j] == k;
                    assert(keys[j] == k);
                } else {
                    assert(keys[keys.len() - 1] == k);
                }
            }
            if keys.contains(k) {
                let j = choose|j: int| 0 <= j < keys.len() && keys[j] == k;
                if j < keys.len() - 1 {
                    assert(keys.drop_last()[j] == k);
                    assert(earlier.contains(k));
                    let i = choose|i: int| 0 <= i < earlier.len() && earlier[i] == k;
                    assert(distinct[i] == k);
                } else {
                    if earlier.contains(k) {
                        let i = choose|i: int| 0 <= i < earlier.len() && earlier[i] == k;
                        assert(distinct[i] == k);
                    } else {
                        assert(distinct[earlier.len() as int] == k);
                    }
                }
            }
        }
        if !earlier.contains(keys.last()) {
            assert forall|i: int, j: int|
                0 <= i < distinct.len() && 0 <= j < distinct.len() && i != j implies distinct[i]
                != distinct[j] by {
                if i < earlier.len() && j < earlier.len() {
                } else if i < earlier.len() {
                    assert(earlier.contains(earlier[i]));
                } else {
                    assert(earlier.contains(earlier[j]));
                }
            }
        }
    }
}

/// The mathematical content of a [`SyncGroup`].
#[verifier::reject_recursive_types(KV)]
pub struct SyncGroupView<KV, V, H> {
    /// The keys that the group waits for, each once, in the order in which
    /// they were given.
    pub keys: Seq<KV>,
    /// What is held for each of those keys.
    pub slots: Map<KV, CollectState<V, H>>,
    /// How many parties still hold the group: one for each request that
    /// has not reported, and one for whoever made the group.
    pub holders: nat,
    /// Whether the collected values have been handed out.
    pub fired: bool,
}

impl<KV, V, H> SyncGroupView<KV, V, H> {
    /// The group made for `keys`: nothing has arrived, and every request
    /// as well as the maker holds the group.
    pub open spec fn created(keys: Seq<KV>) -> Self {
        SyncGroupView {
            keys: distinct_keys(keys),
            slots: Map::new(|k: KV| keys.contains(k), |k: KV| CollectState::Vacant),
            holders: keys.len() + 1,
            fired: false,
        }
    }

    /// Whether a value has arrived for every key.
    pub open spec fn all_ready(self) -> bool {
        forall|k: KV| #[trigger] self.slots.contains_key(k) ==> self.slots[k] is Present
    }

    /// The values that have arrived, each with its key, in the order of
    /// the keys.
    pub open spec fn collected(self) -> Seq<(KV, V)> {
        Seq::new(
            self.keys.len(),
            |i: int| (self.keys[i], present_value(self.slots[self.keys[i]])),
        )
    }

    /// Whether a cancellation handle for `key` is kept: the key is waited
    /// for and its value has not arrived.
    pub open spec fn accepts_handle(self, key: KV) -> bool {
        self.slots.contains_key(key) && !(self.slots[key] is Present)
    }

    /// The group after a cancellation handle for `key` was offered.
    pub open spec fn marked(self, key: KV, task: H) -> Self {
        if self.accepts_handle(key) {
            SyncGroupView { slots: self.slots.insert(key, CollectState::FetchInFlight(task)), ..self }
        } else {
            self
        }
    }

    /// The group after `value` was put in the slot of `key`. A key that is
    /// not waited for has no slot, and the group is unchanged.
    pub open spec fn stored(self, key: KV, value: V) -> Self {
        if self.slots.contains_key(key) {
            SyncGroupView { slots: self.slots.insert(key, CollectState::Present(value)), ..self }
        } else {
            self
        }
    }

    /// The group after one party has let go of it.
    pub open spec fn released(self) -> Self {
        SyncGroupView {
            holders: if self.holders > 0 {
                (self.holders - 1) as nat
            } else {
                0
            },
            ..self
        }
    }

    /// Whether the group hands out its values now: it has not done so
    /// before, nobody holds it any more, and every value has arrived.
    pub open spec fn fires(self) -> bool {
        !self.fired && self.holders == 0 && self.all_ready()
    }

    /// Whether the group is stuck: nobody holds it any more, and yet a
    /// value is missing, so that only a report that nobody is left to make
    /// could still let it hand out its values.
    pub open spec fn stalled(self) -> bool {
        !self.fired && self.holders == 0 && !self.all_ready()
    }

    /// The group after its values were handed out.
    pub open spec fn spent() -> Self {
        SyncGroupView { keys: Seq::empty(), slots: Map::empty(), holders: 0, fired: true }
    }

    /// The group after it was given the chance to hand out its values.
    pub open spec fn settled(self) -> Self {
        if self.fires() {
            Self::spent()
        } else {
            self
        }
    }

    /// The group after the request for `key` has reported `value`.
    pub open spec fn received(self, key: KV, value: V) -> Self {
        self.stored(key, value).released().settled()
    }

    /// The group after a party has let go of it without a value.
    pub open spec fn let_go(self) -> Self {
        self.released().settled()
    }
}

/// A join over a fixed set of keys.
pub struct SyncGroup<K: RequestKey, V, H> {
    slots: Vec<(K, CollectState<V, H>)>,
    holders: u128,
    fired: bool,
}

impl<K: RequestKey, V, H> View for SyncGroup<K, V, H> {
    type V = SyncGroupView<K::V, V, H>;

    closed spec fn view(&self) -> Self::V {
        SyncGroupView {
            keys: entry_keys(self.slots@),
            slots: assoc(entry_keys(self.slots@), entry_values(self.slots@)),
            holders: self.holders as nat,
            fired: self.fired,
        }
    }
}

impl<K: RequestKey, V, H> SyncGroup<K, V, H> {
    #[verifier::type_invariant]
    spec fn well_formed(&self) -> bool {
        &&& entry_keys(self.slots@).no_duplicates()
        &&& self.fired ==> self.slots@.len() == 0 && self.holders == 0
    }

    /// A group that waits for one value per key of `keys`. It is held by
    /// one party per element of `keys` and by its maker.
    pub fn new(keys: Vec<K>) -> (group: Self)
        ensures
            group@ == SyncGroupView::<K::V, V, H>::created(key_views(keys@)),
    {
        let holders: u128 = keys.len() as u128 + 1;
        let ghost all = key_views(keys@);
        let ghost given = keys@;
        let mut slots: Vec<(K, CollectState<V, H>)> = Vec::new();
        for key in it: keys
            invariant
                it.seq() == given,
                all == key_views(given),
                entry_keys(slots@) == distinct_keys(all.take(it.index() as int)),
                forall|j: int| 0 <= j < slots@.len() ==> (#[trigger] slots@[j]).1 is Vacant,
        {
            let ghost before = slots@;
            let ghost i = it.index() as int;
            proof {
                assert(all.take(i + 1).drop_last() =~= all.take(i));
                assert(all.take(i + 1).last() == key@);
            }
            if position(&slots, &key).is_none() {
                slots.push((key, CollectState::Vacant));
                proof {
                    assert(entry_keys(slots@) =~= entry_keys(before).push(key@));
                }
            }
        }
        proof {
            assert(all.take(all.len() as int) =~= all);
            lemma_distinct_keys(all);
        }
        let group = Self { slots, holders, fired: false };
        proof {
            let keys = entry_keys(group.slots@);
            let values = entry_values(group.slots@);
            assert forall|k: K::V| #[trigger] assoc(keys, values).contains_key(k) implies assoc(
                keys,
                values,
            )[k] == CollectState::<V, H>::Vacant by {
                lemma_assoc_at(keys, values, keys.index_of(k));
            }
            assert(group@.slots =~= SyncGroupView::<K::V, V, H>::created(all).slots);
        }
        group
    }

    /// Whether a value has arrived for every key.
    pub fn is_all_ready(&self) -> (ready: bool)
        ensures
            ready == self@.all_ready(),
    {
        proof {
            use_type_invariant(self);
        }
        let ghost keys = entry_keys(self.slots@);
        let ghost values = entry_values(self.slots@);
        let mut i: usize = 0;
        while i < self.slots.len()
            invariant
                i <= self.slots.len(),
                keys == entry_keys(self.slots@),
                values == entry_values(self.slots@),
                keys.no_duplicates(),
                forall|j: int| 0 <= j < i ==> (#[trigger] self.slots@[j]).1 is Present,
            decreases self.slots.len() - i,
        {
            match &self.slots[i].1 {
                CollectState::Present(_) => {},
                _ => {
                    proof {
                        lemma_assoc_at(keys, values, i as int);
                    }
                    return false;
                },
            }
            i = i + 1;
        }
        proof {
            assert forall|k: K::V| #[trigger] self@.slots.contains_key(k) implies self@.slots[k] is Present by {
                let j = keys.index_of(k);
                lemma_assoc_at(keys, values, j);
                assert(self.slots@[j].1 is Present);
            }
        }
        true
    }

    /// Whether the group is stuck: every party has let go of it, and a
    /// value is still missing.
    pub fn is_stalled(&self) -> (stalled: bool)
        ensures
            stalled == self@.stalled(),
    {
        !self.fired && self.holders == 0 && !self.is_all_ready()
    }

    /// Records the cancellation handle of the request for `key`. It
    /// replaces an earlier handle for the key. A handle for a key that is
    /// not waited for, or whose value has arrived, is handed back.
    pub fn in_flight(&mut self, key: K, task: H) -> (rejected: Option<H>)
        ensures
            final(self)@ == old(self)@.marked(key@, task),
            rejected == if old(self)@.accepts_handle(key@) {
                None
            } else {
                Some(task)
            },
    {
        proof {
            use_type_invariant(&*self);
        }
        let found = position(&self.slots, &key);
        let mut slots: Vec<(K, CollectState<V, H>)> = Vec::new();
        core::mem::swap(&mut self.slots, &mut slots);
        let ghost before = slots@;
        let rejected = match found {
            None => {
                proof {
                    lemma_assoc_absent(entry_keys(before), entry_values(before), key@);
                }
                Some(task)
            },
            Some(i) => {
                proof {
                    lemma_assoc_at(entry_keys(before), entry_values(before), i as int);
                }
                let arrived = match &slots[i].1 {
                    CollectState::Present(_) => true,
                    _ => false,
                };
                if arrived {
                    Some(task)
                } else {
                    let mut state: CollectState<V, H> = CollectState::FetchInFlight(task);
                    core::mem::swap(&mut slots[i].1, &mut state);
                    proof {
                        lemma_assoc_update(
                            entry_keys(before),
                            entry_values(before),
                            i as int,
                            CollectState::FetchInFlight(task),
                        );
                        assert(entry_keys(slots@) =~= entry_keys(before));
                        assert(entry_values(slots@) =~= entry_values(before).update(
                            i as int,
                            CollectState::FetchInFlight(task),
                        ));
                    }
                    None
                }
            },
        };
        self.slots = slots;
        rejected
    }

    fn store(&mut self, key: K, value: V)
        ensures
            final(self)@ == old(self)@.stored(key@, value),
    {
        proof {
            use_type_invariant(&*self);
        }
        let found = position(&self.slots, &key);
        let mut slots: Vec<(K, CollectState<V, H>)> = Vec::new();
        core::mem::swap(&mut self.slots, &mut slots);
        let ghost before = slots@;
        match found {
            None => {
                proof {
                    lemma_assoc_absent(entry_keys(before), entry_values(before), key@);
                }
            },
            Some(i) => {
                let mut state: CollectState<V, H> = CollectState::Present(value);
                core::mem::swap(&mut slots[i].1, &mut state);
                proof {
                    lemma_assoc_at(entry_keys(before), entry_values(before), i as int);
                    lemma_assoc_update(
                        entry_keys(before),
                        entry_values(before),
                        i as int,
                        CollectState::Present(value),
                    );
                    assert(entry_keys(slots@) =~= entry_keys(before));
                    assert(entry_values(slots@) =~= entry_values(before).update(
                        i as int,
                        CollectState::Present(value),
                    ));
                }
            },
        }
        self.slots = slots;
    }

    fn release(&mut self)
        ensures
            final(self)@ == old(self)@.released(),
    {
        proof {
            use_type_invariant(&*self);
        }
        if self.holders > 0 {
            self.holders = self.holders - 1;
        }
    }

    fn settle(&mut self) -> (fired: Option<Vec<(K, V)>>)
        ensures
            final(self)@ == old(self)@.settled(),
            match fired {
                Some(values) => old(self)@.fires() && entry_views(values@) == old(self)@.collected(),
                None => !old(self)@.fires(),
            },
    {
        proof {
            use_type_invariant(&*self);
        }
        if self.fired || self.holders != 0 || !self.is_all_ready() {
            return None;
        }
        let ghost keys = entry_keys(self.slots@);
        let ghost states = entry_values(self.slots@);
        let mut slots: Vec<(K, CollectState<V, H>)> = Vec::new();
        core::mem::swap(&mut self.slots, &mut slots);
        self.fired = true;
        let ghost taken = slots@;
        let mut values: Vec<(K, V)> = Vec::new();
        for entry in it: slots
            invariant
                it.seq() == taken,
                keys == entry_keys(taken),
                states == entry_values(taken),
                keys.no_duplicates(),
                forall|k: K::V| #[trigger]
                    assoc(keys, states).contains_key(k) ==> assoc(keys, states)[k] is Present,
                values@.len() == it.index(),
                forall|j: int|
                    0 <= j < values@.len() ==> (#[trigger] values@[j]).0@ == keys[j] && values@[j].1
                        == present_value(assoc(keys, states)[keys[j]]),
        {
            proof {
                lemma_assoc_at(keys, states, it.index() as int);
            }
            let (key, state) = entry;
            match state {
                CollectState::Present(value) => {
                    values.push((key, value));
                },
                _ => {},
            }
        }
        proof {
            assert(self@.keys =~= Seq::<K::V>::empty());
            assert(self@.slots =~= Map::<K::V, CollectState<V, H>>::empty());
            assert(entry_views(values@) =~= old(self)@.collected());
        }
        Some(values)
    }

    /// Takes in the value that the request for `key` has reported, lets go
    /// of the group on behalf of that request, and hands out the collected
    /// values if this was the last thing the group waited for.
    pub fn recv(&mut self, key: K, value: V) -> (fired: Option<Vec<(K, V)>>)
        ensures
            final(self)@ == old(self)@.received(key@, value),
            match fired {
                Some(values) => {
                    &&& old(self)@.stored(key@, value).released().fires()
                    &&& entry_views(values@) == old(self)@.stored(key@, value).collected()
                },
                None => !old(self)@.stored(key@, value).released().fires(),
            },
    {
        self.store(key, value);
        self.release();
        self.settle()
    }

    /// Lets go of the group without a value, and hands out the collected
    /// values if this was the last thing the group waited for.
    pub fn try_complete(&mut self) -> (fired: Option<Vec<(K, V)>>)
        ensures
            final(self)@ == old(self)@.let_go(),
            match fired {
                Some(values) => {
                    &&& old(self)@.released().fires()
                    &&& entry_views(values@) == old(self)@.collected()
                },
                None => !old(self)@.released().fires(),
            },
    {
        self.release();
        self.settle()
    }
}

/// One thing that happens to a group: a call of [`SyncGroup::in_flight`],
/// of [`SyncGroup::recv`] or of [`SyncGroup::try_complete`].
pub enum GroupEvent<KV, V, H> {
    InFlight(KV, H),
    Recv(KV, V),
    LetGo,
}

impl<KV, V, H> SyncGroupView<KV, V, H> {
    /// The group after `event`.
    pub open spec fn after(self, event: GroupEvent<KV, V, H>) -> Self {
        match event {
            GroupEvent::InFlight(key, task) => self.marked(key, task),
            GroupEvent::Recv(key, value) => self.received(key, value),
            GroupEvent::LetGo => self.let_go(),
        }
    }

    /// Whether the group hands out its values on `event`.
    pub open spec fn fires_on(self, event: GroupEvent<KV, V, H>) -> bool {
        match event {
            GroupEvent::InFlight(_, _) => false,
            GroupEvent::Recv(key, value) => self.stored(key, value).released().fires(),
            GroupEvent::LetGo => self.released().fires(),
        }
    }

    /// The group after `events`, in their order.
    pub open spec fn after_all(self, events: Seq<GroupEvent<KV, V, H>>) -> Self
        decreases events.len(),
    {
        if events.len() == 0 {
            self
        } else {
            self.after_all(events.drop_last()).after(events.last())
        }
    }

    /// How many times the group hands out its values while `events` happen.
    pub open spec fn fire_count(self, events: Seq<GroupEvent<KV, V, H>>) -> nat
        decreases events.len(),
    {
        if events.len() == 0 {
            0
        } else {
            self.fire_count(events.drop_last()) + if self.after_all(events.drop_last()).fires_on(
                events.last(),
            ) {
                1nat
            } else {
                0nat
            }
        }
    }
}

/// Whether `event` lets go of the group: a report or a plain release.
pub open spec fn lets_go<KV, V, H>(event: GroupEvent<KV, V, H>) -> bool {
    !(event is InFlight)
}

/// How many of `events` let go of the group.
pub open spec fn releases<KV, V, H>(events: Seq<GroupEvent<KV, V, H>>) -> nat
    decreases events.len(),
{
    if events.len() == 0 {
        0
    } else {
        releases(events.drop_last()) + if lets_go(events.last()) {
            1nat
        } else {
            0nat
        }
    }
}

/// Whether a value for `key` is reported somewhere in `events`.
pub open spec fn received_in<KV, V, H>(events: Seq<GroupEvent<KV, V, H>>, key: KV) -> bool {
    exists|i: int|
        0 <= i < events.len() && (#[trigger] events[i] matches GroupEvent::Recv(k, _) && k == key)
}

/// A cancellation handle is bookkeeping only: whether it is kept or not,
/// the group waits for the same keys, is held by as many parties, holds
/// the same values, and hands them out on the same occasions.
pub proof fn lemma_handle_is_bookkeeping<KV, V, H>(
    group: SyncGroupView<KV, V, H>,
    key: KV,
    task: H,
)
    ensures
        group.marked(key, task).keys == group.keys,
        group.marked(key, task).holders == group.holders,
        group.marked(key, task).fired == group.fired,
        forall|k: KV|
            group.marked(key, task).slots.contains_key(k) <==> #[trigger] group.slots.contains_key(k),
        forall|k: KV| #[trigger]
            group.slots.contains_key(k) && group.slots[k] is Present ==> group.marked(
                key,
                task,
            ).slots[k] == group.slots[k],
        group.marked(key, task).all_ready() == group.all_ready(),
        group.marked(key, task).fires() == group.fires(),
        group.marked(key, task).released().fires() == group.released().fires(),
{
    let marked = group.marked(key, task);
    if group.all_ready() {
        assert(marked == group);
    } else {
        let k = choose|k: KV| #[trigger] group.slots.contains_key(k) && !(group.slots[k] is Present);
        assert(marked.slots.contains_key(k));
        assert(!(marked.slots[k] is Present));
    }
}

/// Single fire: whatever happens to a group, in whatever order, it hands
/// out its values at most once, and never again after it has done so.
pub proof fn lemma_fires_at_most_once<KV, V, H>(
    group: SyncGroupView<KV, V, H>,
    events: Seq<GroupEvent<KV, V, H>>,
)
    ensures
        group.fire_count(events) <= 1,
        group.fired ==> group.fire_count(events) == 0,
        group.fired || group.fire_count(events) == 1 ==> group.after_all(events).fired,
    decreases events.len(),
{
    if events.len() > 0 {
        lemma_fires_at_most_once(group, events.drop_last());
    }
}

/// What holds of a group made for `keys` after any `events`, as long as it
/// has not handed out its values: it waits for exactly those keys; a value
/// is present exactly for the keys that were reported; and while fewer
/// parties have let go than hold the group, it has not handed out anything.
pub proof fn lemma_group_progress<KV, V, H>(keys: Seq<KV>, events: Seq<GroupEvent<KV, V, H>>)
    ensures
        ({
            let group = SyncGroupView::<KV, V, H>::created(keys).after_all(events);
            &&& !group.fired ==> forall|k: KV| #[trigger]
                group.slots.contains_key(k) <==> keys.contains(k)
            &&& !group.fired ==> forall|k: KV|
                keys.contains(k) ==> (#[trigger] received_in(events, k) <==> group.slots[k] is Present)
            &&& releases(events) <= keys.len() ==> {
                &&& !group.fired
                &&& group.holders == keys.len() + 1 - releases(events)
                &&& SyncGroupView::<KV, V, H>::created(keys).fire_count(events) == 0
            }
        }),
    decreases events.len(),
{
    let start = SyncGroupView::<KV, V, H>::created(keys);
    let group = start.after_all(events);
    if events.len() == 0 {
        assert forall|k: KV| keys.contains(k) implies !(#[trigger] received_in(events, k)) by {}
    } else {
        let earlier = events.drop_last();
        let last = events.last();
        let before = start.after_all(earlier);
        lemma_group_progress(keys, earlier);
        lemma_fires_at_most_once(start, earlier);
        if !group.fired {
            assert(!before.fired);
            assert forall|k: KV| keys.contains(k) implies (#[trigger] received_in(events, k)
                <==> group.slots[k] is Present) by {
                assert(before.slots.contains_key(k));
                if received_in(events, k) {
                    let i = choose|i: int|
                        0 <= i < events.len() && (#[trigger] events[i] matches GroupEvent::Recv(
                            k2,
                            _,
                        ) && k2 == k);
                    if i < earlier.len() {
                        assert(earlier[i] == events[i]);
                        assert(received_in(earlier, k));
                    }
                }
                if received_in(earlier, k) {
                    let i = choose|i: int|
                        0 <= i < earlier.len() && (#[trigger] earlier[i] matches GroupEvent::Recv(
                            k2,
                            _,
                        ) && k2 == k);
                    assert(events[i] == earlier[i]);
                    assert(received_in(events, k));
                }
                if last matches GroupEvent::Recv(k2, _) && k2 == k {
                    assert(events[events.len() - 1] == last);
                    assert(received_in(events, k));
                }
                if group.slots[k] is Present && !received_in(earlier, k) {
                    assert(!(before.slots[k] is Present));
                    assert(last matches GroupEvent::Recv(k2, _) && k2 == k);
                }
            }
        }
    }
}

/// Only after every report: when a group made for `keys` hands out its
/// values on the last of `events`, a value has been reported for every one
/// of the keys by then.
pub proof fn lemma_fires_only_after_all_received<KV, V, H>(
    keys: Seq<KV>,
    events: Seq<GroupEvent<KV, V, H>>,
)
    requires
        events.len() > 0,
        SyncGroupView::<KV, V, H>::created(keys).after_all(events.drop_last()).fires_on(
            events.last(),
        ),
    ensures
        forall|k: KV| keys.contains(k) ==> received_in(events, k),
{
    let start = SyncGroupView::<KV, V, H>::created(keys);
    let earlier = events.drop_last();
    let last = events.last();
    let before = start.after_all(earlier);
    lemma_group_progress(keys, earlier);
    assert forall|k: KV| keys.contains(k) implies received_in(events, k) by {
        assert(before.slots.contains_key(k));
        match last {
            GroupEvent::InFlight(_, _) => {},
            GroupEvent::Recv(k2, value) => {
                assert(before.stored(k2, value).released().slots.contains_key(k));
                if k2 == k {
                    assert(events[events.len() - 1] == last);
                } else {
                    assert(before.slots[k] is Present);
                    assert(received_in(earlier, k));
                    let i = choose|i: int|
                        0 <= i < earlier.len() && (#[trigger] earlier[i] matches GroupEvent::Recv(
                            k3,
                            _,
                        ) && k3 == k);
                    assert(events[i] == earlier[i]);
                }
            },
            GroupEvent::LetGo => {
                assert(before.released().slots.contains_key(k));
                assert(before.slots[k] is Present);
                assert(received_in(earlier, k));
                let i = choose|i: int|
                    0 <= i < earlier.len() && (#[trigger] earlier[i] matches GroupEvent::Recv(k3, _)
                        && k3 == k);
                assert(events[i] == earlier[i]);
            },
        }
    }
}

/// Exactly once: when every party lets go of a group made for `keys` once
/// (one party per element of `keys` and the maker), and a value is reported
/// for every key, in whatever order, the group hands out its values exactly
/// once: on the last of the events that let go of it.
pub proof fn lemma_fires_once_all_reported<KV, V, H>(
    keys: Seq<KV>,
    events: Seq<GroupEvent<KV, V, H>>,
)
    requires
        releases(events) == keys.len() + 1,
        forall|k: KV| keys.contains(k) ==> received_in(events, k),
    ensures
        SyncGroupView::<KV, V, H>::created(keys).fire_count(events) == 1,
        SyncGroupView::<KV, V, H>::created(keys).after_all(events).fired,
    decreases events.len(),
{
    let start = SyncGroupView::<KV, V, H>::created(keys);
    let earlier = events.drop_last();
    let last = events.last();
    let before = start.after_all(earlier);
    if lets_go(last) {
        lemma_group_progress(keys, earlier);
        assert forall|k: KV| #[trigger] before.slots.contains_key(k) implies (match last {
            GroupEvent::Recv(k2, value) => before.stored(k2, value).slots[k] is Present,
            _ => before.slots[k] is Present,
        }) by {
            assert(keys.contains(k));
            assert(received_in(events, k));
            let i = choose|i: int|
                0 <= i < events.len() && (#[trigger] events[i] matches GroupEvent::Recv(k3, _)
                    && k3 == k);
            if i < earlier.len() {
                assert(earlier[i] == events[i]);
                assert(received_in(earlier, k));
            } else {
                assert(events[i] == last);
            }
        }
        match last {
            GroupEvent::Recv(k2, value) => {
                let stored = before.stored(k2, value).released();
                assert forall|k: KV| #[trigger] stored.slots.contains_key(k) implies stored.slots[k] is Present by {
                    assert(before.slots.contains_key(k));
                }
                assert(stored.fires());
            },
            _ => {
                assert(before.released().all_ready());
            },
        }
        lemma_fires_at_most_once(start, events);
    } else {
        assert forall|k: KV| keys.contains(k) implies received_in(earlier, k) by {
            assert(received_in(events, k));
            let i = choose|i: int|
                0 <= i < events.len() && (#[trigger] events[i] matches GroupEvent::Recv(k3, _)
                    && k3 == k);
            assert(earlier[i] == events[i]);
        }
        lemma_fires_once_all_reported(keys, earlier);
        lemma_fires_at_most_once(start, events);
    }
}

/// Whether `events` hold no report of a value.
pub open spec fn without_report<KV, V, H>(events: Seq<GroupEvent<KV, V, H>>) -> bool {
    forall|i: int| 0 <= i < events.len() ==> !(#[trigger] events[i] is Recv)
}

/// A stalled group stays stalled: as long as no value is reported to it,
/// whatever else happens, it hands out nothing.
pub proof fn lemma_stalled_stays_stalled<KV, V, H>(
    group: SyncGroupView<KV, V, H>,
    events: Seq<GroupEvent<KV, V, H>>,
)
    requires
        group.stalled(),
        without_report(events),
    ensures
        group.after_all(events).stalled(),
        group.fire_count(events) == 0,
    decreases events.len(),
{
    if events.len() > 0 {
        let earlier = events.drop_last();
        assert forall|i: int| 0 <= i < earlier.len() implies !(#[trigger] earlier[i] is Recv) by {
            assert(earlier[i] == events[i]);
        }
        lemma_stalled_stays_stalled(group, earlier);
        let before = group.after_all(earlier);
        assert(events[events.len() - 1] == events.last());
        match events.last() {
            GroupEvent::InFlight(key, task) => {
                lemma_handle_is_bookkeeping(before, key, task);
            },
            GroupEvent::Recv(_, _) => {},
            GroupEvent::LetGo => {
                assert(before.released() == before);
            },
        }
    }
}

} // verus!
