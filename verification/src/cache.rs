//! A cache that coalesces the requests made for one key into a single
//! underlying request, and keeps every result for good.
//!
//! The cache decides and the caller acts: [`ApiCache::fetch`] says whether
//! the underlying request has to be issued, and [`ApiCache::complete`] says
//! which continuations are owed the result once the request has resolved.
//! Where the request could not be started, [`ApiCache::abandon`] takes it
//! back, and the key is as unknown as before.

use crate::keyed::{
    assoc, entry_keys, lemma_assoc_absent, lemma_assoc_at, lemma_assoc_push, lemma_assoc_remove,
    lemma_assoc_update, position, Payload, RequestKey,
};
use vstd::prelude::*;

verus! {

/// What the cache holds for one key.
pub enum RequestState<R, W, H> {
    /// The request is under way: its cancellation handle, once the
    /// transport has handed one out, and the continuations that wait for
    /// the result, oldest first.
    InFlight(Option<H>, Vec<W>),
    /// The request has resolved to this result.
    Cached(R),
}

/// The mathematical content of a [`RequestState`].
pub enum RequestStateView<R, W, H> {
    InFlight(Option<H>, Seq<W>),
    Cached(R),
}

impl<R, W, H> View for RequestState<R, W, H> {
    type V = RequestStateView<R, W, H>;

    open spec fn view(&self) -> Self::V {
        match *self {
            RequestState::InFlight(handle, waiters) => RequestStateView::InFlight(
                handle,
                waiters@,
            ),
            RequestState::Cached(result) => RequestStateView::Cached(result),
        }
    }
}

/// What the caller of [`ApiCache::fetch`] has to do next.
pub enum FetchAction<R, W> {
    /// The key was unknown: issue the underlying request. The continuation
    /// has been queued and is handed out by [`ApiCache::complete`], or by
    /// [`ApiCache::abandon`] where the request cannot be started.
    Call,
    /// The request for the key is under way: nothing to do. The
    /// continuation has been queued behind the earlier ones.
    Wait,
    /// The key has resolved: invoke the continuation with this copy of the
    /// result.
    Deliver(W, R),
}

/// The cache after `fetch(key, callback)`.
pub open spec fn fetched<KV, R, W, H>(
    cache: Map<KV, RequestStateView<R, W, H>>,
    key: KV,
    callback: W,
) -> Map<KV, RequestStateView<R, W, H>> {
    if cache.contains_key(key) {
        match cache[key] {
            RequestStateView::InFlight(handle, waiters) => cache.insert(
                key,
                RequestStateView::InFlight(handle, waiters.push(callback)),
            ),
            RequestStateView::Cached(_) => cache,
        }
    } else {
        cache.insert(key, RequestStateView::InFlight(None, seq![callback]))
    }
}

/// The continuations that wait for the result of `key`, oldest first.
pub open spec fn waiting<KV, R, W, H>(cache: Map<KV, RequestStateView<R, W, H>>, key: KV) -> Seq<
    W,
> {
    if cache.contains_key(key) {
        match cache[key] {
            RequestStateView::InFlight(_, waiters) => waiters,
            RequestStateView::Cached(_) => Seq::empty(),
        }
    } else {
        Seq::empty()
    }
}

/// Whether `key` has resolved.
pub open spec fn resolved<KV, R, W, H>(cache: Map<KV, RequestStateView<R, W, H>>, key: KV) -> bool {
    cache.contains_key(key) && cache[key] is Cached
}

/// The cache after the request for `key` has resolved to `result`: a key
/// that had resolved before keeps its first result.
pub open spec fn completed<KV, R, W, H>(
    cache: Map<KV, RequestStateView<R, W, H>>,
    key: KV,
    result: R,
) -> Map<KV, RequestStateView<R, W, H>> {
    if resolved(cache, key) {
        cache
    } else {
        cache.insert(key, RequestStateView::Cached(result))
    }
}

/// Whether the request for `key` is under way and no handle is recorded
/// for it yet.
pub open spec fn lacks_handle<KV, R, W, H>(
    cache: Map<KV, RequestStateView<R, W, H>>,
    key: KV,
) -> bool {
    cache.contains_key(key) && cache[key] matches RequestStateView::InFlight(None, _)
}

/// The cache after the request for `key` could not be started: a key that
/// is in flight without a handle is forgotten, so that a later fetch issues
/// the request anew. A key whose request has a handle, or has resolved, is
/// left as it is.
pub open spec fn abandoned<KV, R, W, H>(
    cache: Map<KV, RequestStateView<R, W, H>>,
    key: KV,
) -> Map<KV, RequestStateView<R, W, H>> {
    if lacks_handle(cache, key) {
        cache.remove(key)
    } else {
        cache
    }
}

/// The cache after the transport has handed out `task` for `key`.
pub open spec fn attached<KV, R, W, H>(
    cache: Map<KV, RequestStateView<R, W, H>>,
    key: KV,
    task: H,
) -> Map<KV, RequestStateView<R, W, H>> {
    if lacks_handle(cache, key) {
        cache.insert(key, RequestStateView::InFlight(Some(task), waiting(cache, key)))
    } else {
        cache
    }
}

spec fn entry_states<K, S: View>(entries: Seq<(K, S)>) -> Seq<S::V> {
    Seq::new(entries.len(), |i: int| entries[i].1@)
}

/// A memoizing, coalescing front for a source of keyed results.
pub struct ApiCache<K: RequestKey, R: Payload, W, H> {
    entries: Vec<(K, RequestState<R, W, H>)>,
}

impl<K: RequestKey, R: Payload, W, H> ApiCache<K, R, W, H> {
    spec fn keys(&self) -> Seq<K::V> {
        entry_keys(self.entries@)
    }

    spec fn states(&self) -> Seq<RequestStateView<R, W, H>> {
        entry_states(self.entries@)
    }

    #[verifier::type_invariant]
    spec fn distinct_keys(&self) -> bool {
        self.keys().no_duplicates()
    }
}

impl<K: RequestKey, R: Payload, W, H> View for ApiCache<K, R, W, H> {
    type V = Map<K::V, RequestStateView<R, W, H>>;

    closed spec fn view(&self) -> Self::V {
        assoc(self.keys(), self.states())
    }
}

impl<K: RequestKey, R: Payload, W, H> ApiCache<K, R, W, H> {
    /// A cache that knows no key.
    pub fn new() -> (cache: Self)
        ensures
            cache@ == Map::<K::V, RequestStateView<R, W, H>>::empty(),
    {
        let cache = Self { entries: Vec::new() };
        assert(cache@ =~= Map::<K::V, RequestStateView<R, W, H>>::empty());
        cache
    }

    /// Registers `callback` for the result of `key`.
    pub fn fetch(&mut self, key: &K, callback: W) -> (action: FetchAction<R, W>)
        ensures
            final(self)@ == fetched(old(self)@, key@, callback),
            match action {
                FetchAction::Call => !old(self)@.contains_key(key@),
                FetchAction::Wait => old(self)@.contains_key(key@) && old(self)@[key@] is InFlight,
                FetchAction::Deliver(waiter, copy) => {
                    &&& waiter == callback
                    &&& old(self)@.contains_key(key@)
                    &&& old(self)@[key@] matches RequestStateView::Cached(result)
                    &&& copy.content() == result.content()
                },
            },
    {
        proof {
            use_type_invariant(&*self);
        }
        let found = position(&self.entries, key);
        let mut entries: Vec<(K, RequestState<R, W, H>)> = Vec::new();
        core::mem::swap(&mut self.entries, &mut entries);
        let ghost before = entries@;
        let action = match found {
            None => {
                let mut waiters: Vec<W> = Vec::new();
                waiters.push(callback);
                entries.push((key.clone_key(), RequestState::InFlight(None, waiters)));
                proof {
                    let state = RequestStateView::<R, W, H>::InFlight(None, seq![callback]);
                    assert(waiters@ =~= seq![callback]);
                    lemma_assoc_absent(entry_keys(before), entry_states(before), key@);
                    lemma_assoc_push(entry_keys(before), entry_states(before), key@, state);
                    assert(entry_keys(entries@) =~= entry_keys(before).push(key@));
                    assert(entry_states(entries@) =~= entry_states(before).push(state));
                }
                FetchAction::Call
            },
            Some(i) => {
                proof {
                    lemma_assoc_at(entry_keys(before), entry_states(before), i as int);
                }
                match &mut entries[i].1 {
                    RequestState::InFlight(_, waiters) => {
                        waiters.push(callback);
                        proof {
                            let state = entry_states(entries@)[i as int];
                            lemma_assoc_update(
                                entry_keys(before),
                                entry_states(before),
                                i as int,
                                state,
                            );
                            assert(entry_keys(entries@) =~= entry_keys(before));
                            assert(entry_states(entries@) =~= entry_states(before).update(
                                i as int,
                                state,
                            ));
                        }
                        FetchAction::Wait
                    },
                    RequestState::Cached(result) => {
                        let copy = result.replicate();
                        proof {
                            assert(entries@ =~= before);
                        }
                        FetchAction::Deliver(callback, copy)
                    },
                }
            },
        };
        self.entries = entries;
        action
    }

    /// Records the cancellation handle that the transport handed out for
    /// the request of `key`. A handle that comes too late, or a second one,
    /// is handed back.
    pub fn in_flight(&mut self, key: &K, task: H) -> (rejected: Option<H>)
        ensures
            final(self)@ == attached(old(self)@, key@, task),
            rejected == if lacks_handle(old(self)@, key@) {
                None
            } else {
                Some(task)
            },
    {
        proof {
            use_type_invariant(&*self);
        }
        let found = position(&self.entries, key);
        let mut entries: Vec<(K, RequestState<R, W, H>)> = Vec::new();
        core::mem::swap(&mut self.entries, &mut entries);
        let ghost before = entries@;
        let rejected = match found {
            None => {
                proof {
                    lemma_assoc_absent(entry_keys(before), entry_states(before), key@);
                }
                Some(task)
            },
            Some(i) => {
                proof {
                    lemma_assoc_at(entry_keys(before), entry_states(before), i as int);
                }
                match &mut entries[i].1 {
                    RequestState::InFlight(handle, _) => {
                        if handle.is_none() {
                            *handle = Some(task);
                            proof {
                                let state = entry_states(entries@)[i as int];
                                lemma_assoc_update(
                                    entry_keys(before),
                                    entry_states(before),
                                    i as int,
                                    state,
                                );
                                assert(entry_keys(entries@) =~= entry_keys(before));
                                assert(entry_states(entries@) =~= entry_states(before).update(
                                    i as int,
                                    state,
                                ));
                            }
                            None
                        } else {
                            proof {
                                assert(entries@ =~= before);
                            }
                            Some(task)
                        }
                    },
                    RequestState::Cached(_) => {
                        proof {
                            assert(entries@ =~= before);
                        }
                        Some(task)
                    },
                }
            },
        };
        self.entries = entries;
        rejected
    }

    /// Takes back the request for `key`, which could not be started: the
    /// key is forgotten, and the continuations that were queued for it are
    /// handed back, oldest first, without a result. A request that has a
    /// handle has started, and one that has resolved has ended: neither is
    /// taken back.
    pub fn abandon(&mut self, key: &K) -> (waiters: Vec<W>)
        ensures
            final(self)@ == abandoned(old(self)@, key@),
            waiters@ == if lacks_handle(old(self)@, key@) {
                waiting(old(self)@, key@)
            } else {
                Seq::empty()
            },
    {
        proof {
            use_type_invariant(&*self);
        }
        let found = position(&self.entries, key);
        let mut entries: Vec<(K, RequestState<R, W, H>)> = Vec::new();
        core::mem::swap(&mut self.entries, &mut entries);
        let ghost before = entries@;
        let mut waiters: Vec<W> = Vec::new();
        match found {
            None => {
                proof {
                    lemma_assoc_absent(entry_keys(before), entry_states(before), key@);
                }
            },
            Some(i) => {
                proof {
                    lemma_assoc_at(entry_keys(before), entry_states(before), i as int);
                }
                let unstarted = match &entries[i].1 {
                    RequestState::InFlight(handle, _) => handle.is_none(),
                    RequestState::Cached(_) => false,
                };
                if unstarted {
                    let (_, state) = entries.remove(i);
                    proof {
                        lemma_assoc_remove(entry_keys(before), entry_states(before), i as int);
                        assert(entry_keys(entries@) =~= entry_keys(before).remove(i as int));
                        assert(entry_states(entries@) =~= entry_states(before).remove(i as int));
                    }
                    match state {
                        RequestState::InFlight(_, queued) => {
                            waiters = queued;
                        },
                        RequestState::Cached(_) => {},
                    }
                }
            },
        }
        self.entries = entries;
        waiters
    }

    /// Records that the request for `key` has resolved to `result`, and
    /// hands out the continuations that waited for it, oldest first, each
    /// with its own copy of the result.
    pub fn complete(&mut self, key: &K, result: R) -> (deliveries: Vec<(W, R)>)
        ensures
            final(self)@ == completed(old(self)@, key@, result),
            deliveries@.len() == waiting(old(self)@, key@).len(),
            forall|i: int|
                0 <= i < deliveries@.len() ==> {
                    &&& (#[trigger] deliveries@[i]).0 == waiting(old(self)@, key@)[i]
                    &&& deliveries@[i].1.content() == result.content()
                },
    {
        proof {
            use_type_invariant(&*self);
        }
        let found = position(&self.entries, key);
        let mut entries: Vec<(K, RequestState<R, W, H>)> = Vec::new();
        core::mem::swap(&mut self.entries, &mut entries);
        let ghost before = entries@;
        let mut deliveries: Vec<(W, R)> = Vec::new();
        match found {
            None => {
                entries.push((key.clone_key(), RequestState::Cached(result)));
                proof {
                    let state = RequestStateView::<R, W, H>::Cached(result);
                    lemma_assoc_absent(entry_keys(before), entry_states(before), key@);
                    lemma_assoc_push(entry_keys(before), entry_states(before), key@, state);
                    assert(entry_keys(entries@) =~= entry_keys(before).push(key@));
                    assert(entry_states(entries@) =~= entry_states(before).push(state));
                }
            },
            Some(i) => {
                proof {
                    lemma_assoc_at(entry_keys(before), entry_states(before), i as int);
                }
                let mut state: RequestState<R, W, H> = RequestState::InFlight(None, Vec::new());
                core::mem::swap(&mut entries[i].1, &mut state);
                match state {
                    RequestState::InFlight(_, waiters) => {
                        let ghost queued = waiters@;
                        for waiter in it: waiters
                            invariant
                                it.seq() == queued,
                                deliveries@.len() == it.index(),
                                forall|j: int|
                                    0 <= j < deliveries@.len() ==> {
                                        &&& (#[trigger] deliveries@[j]).0 == queued[j]
                                        &&& deliveries@[j].1.content() == result.content()
                                    },
                        {
                            deliveries.push((waiter, result.replicate()));
                        }
                        let mut stored: RequestState<R, W, H> = RequestState::Cached(result);
                        core::mem::swap(&mut entries[i].1, &mut stored);
                        proof {
                            let state = RequestStateView::<R, W, H>::Cached(result);
                            lemma_assoc_update(
                                entry_keys(before),
                                entry_states(before),
                                i as int,
                                state,
                            );
                            assert(entry_keys(entries@) =~= entry_keys(before));
                            assert(entry_states(entries@) =~= entry_states(before).update(
                                i as int,
                                state,
                            ));
                        }
                    },
                    RequestState::Cached(first) => {
                        let mut stored: RequestState<R, W, H> = RequestState::Cached(first);
                        core::mem::swap(&mut entries[i].1, &mut stored);
                        proof {
                            assert(entry_keys(entries@) =~= entry_keys(before));
                            assert(entry_states(entries@) =~= entry_states(before));
                        }
                    },
                }
            },
        }
        self.entries = entries;
        deliveries
    }
}

/// One thing that happens to a cache: a call of [`ApiCache::fetch`], of
/// [`ApiCache::in_flight`], of [`ApiCache::complete`] or of
/// [`ApiCache::abandon`].
pub enum CacheEvent<KV, R, W, H> {
    Fetch(KV, W),
    InFlight(KV, H),
    Complete(KV, R),
    Abandon(KV),
}

/// The cache after `event`.
pub open spec fn after_event<KV, R, W, H>(
    cache: Map<KV, RequestStateView<R, W, H>>,
    event: CacheEvent<KV, R, W, H>,
) -> Map<KV, RequestStateView<R, W, H>> {
    match event {
        CacheEvent::Fetch(key, callback) => fetched(cache, key, callback),
        CacheEvent::InFlight(key, task) => attached(cache, key, task),
        CacheEvent::Complete(key, result) => completed(cache, key, result),
        CacheEvent::Abandon(key) => abandoned(cache, key),
    }
}

/// The cache after `events`, in their order.
pub open spec fn after_events<KV, R, W, H>(
    cache: Map<KV, RequestStateView<R, W, H>>,
    events: Seq<CacheEvent<KV, R, W, H>>,
) -> Map<KV, RequestStateView<R, W, H>>
    decreases events.len(),
{
    if events.len() == 0 {
        cache
    } else {
        after_event(after_events(cache, events.drop_last()), events.last())
    }
}

/// Whether the request for `key` is under way: issued, and neither
/// resolved nor taken back.
pub open spec fn under_way<KV, R, W, H>(cache: Map<KV, RequestStateView<R, W, H>>, key: KV) -> bool {
    cache.contains_key(key) && cache[key] is InFlight
}

/// Whether `event`, arriving at `cache`, makes the caller issue the
/// underlying request for `key`: it is a fetch of `key` that is answered by
/// [`FetchAction::Call`].
pub open spec fn issues_call<KV, R, W, H>(
    cache: Map<KV, RequestStateView<R, W, H>>,
    event: CacheEvent<KV, R, W, H>,
    key: KV,
) -> bool {
    event matches CacheEvent::Fetch(k, _) && k == key && !cache.contains_key(key)
}

/// Whether `event`, arriving at `cache`, ends the request for `key` that
/// is under way: it resolves it, or takes it back.
pub open spec fn ends_call<KV, R, W, H>(
    cache: Map<KV, RequestStateView<R, W, H>>,
    event: CacheEvent<KV, R, W, H>,
    key: KV,
) -> bool {
    match event {
        CacheEvent::Complete(k, _) => k == key && under_way(cache, key),
        CacheEvent::Abandon(k) => k == key && lacks_handle(cache, key),
        _ => false,
    }
}

/// How many underlying requests for `key` the caller issues while `events`
/// arrive at `cache`.
pub open spec fn calls_issued<KV, R, W, H>(
    cache: Map<KV, RequestStateView<R, W, H>>,
    events: Seq<CacheEvent<KV, R, W, H>>,
    key: KV,
) -> nat
    decreases events.len(),
{
    if events.len() == 0 {
        0
    } else {
        let earlier = events.drop_last();
        calls_issued(cache, earlier, key) + if issues_call(
            after_events(cache, earlier),
            events.last(),
            key,
        ) {
            1nat
        } else {
            0nat
        }
    }
}

/// How many underlying requests for `key` end while `events` arrive at
/// `cache`.
pub open spec fn calls_ended<KV, R, W, H>(
    cache: Map<KV, RequestStateView<R, W, H>>,
    events: Seq<CacheEvent<KV, R, W, H>>,
    key: KV,
) -> nat
    decreases events.len(),
{
    if events.len() == 0 {
        0
    } else {
        let earlier = events.drop_last();
        calls_ended(cache, earlier, key) + if ends_call(
            after_events(cache, earlier),
            events.last(),
            key,
        ) {
            1nat
        } else {
            0nat
        }
    }
}

/// The continuations that `events` register for `key`, in their order.
pub open spec fn callbacks_for<KV, R, W, H>(events: Seq<CacheEvent<KV, R, W, H>>, key: KV) -> Seq<
    W,
>
    decreases events.len(),
{
    if events.len() == 0 {
        Seq::empty()
    } else {
        let earlier = callbacks_for(events.drop_last(), key);
        match events.last() {
            CacheEvent::Fetch(k, callback) => if k == key {
                earlier.push(callback)
            } else {
                earlier
            },
            _ => earlier,
        }
    }
}

/// Whether `events` hold neither a completion of the request for `key` nor
/// its taking back.
pub open spec fn unresolved_during<KV, R, W, H>(
    events: Seq<CacheEvent<KV, R, W, H>>,
    key: KV,
) -> bool {
    forall|i: int|
        0 <= i < events.len() ==> match #[trigger] events[i] {
            CacheEvent::Complete(k, _) => k != key,
            CacheEvent::Abandon(k) => k != key,
            _ => true,
        }
}

/// How many requests are counted as under way for `key`: one or none.
pub open spec fn requests_under_way<KV, R, W, H>(
    cache: Map<KV, RequestStateView<R, W, H>>,
    key: KV,
) -> nat {
    if under_way(cache, key) {
        1
    } else {
        0
    }
}

/// At most one request under way per key: whatever happens to a cache, in
/// whatever order, every request that the caller is told to issue for a key
/// is matched by the end of the one before it. The requests issued and the
/// one that was under way at the start are as many as the requests ended
/// and the one that is under way at the end; so never more than one is
/// under way, and a request is issued only while none is and the key has
/// not resolved.
pub proof fn lemma_one_request_under_way<KV, R, W, H>(
    cache: Map<KV, RequestStateView<R, W, H>>,
    events: Seq<CacheEvent<KV, R, W, H>>,
    key: KV,
)
    ensures
        calls_issued(cache, events, key) + requests_under_way(cache, key) == calls_ended(
            cache,
            events,
            key,
        ) + requests_under_way(after_events(cache, events), key),
        calls_issued(cache, events, key) <= calls_ended(cache, events, key) + 1,
    decreases events.len(),
{
    if events.len() > 0 {
        lemma_one_request_under_way(cache, events.drop_last(), key);
    }
}

/// Without a request that could not be started, a key is asked for at most
/// once: as long as no request for `key` is taken back, the caller is told
/// at most once to issue the underlying request for it, never for a key
/// that the cache knew at the start, and a key that the cache knows stays
/// known.
pub proof fn lemma_at_most_one_call<KV, R, W, H>(
    cache: Map<KV, RequestStateView<R, W, H>>,
    events: Seq<CacheEvent<KV, R, W, H>>,
    key: KV,
)
    requires
        forall|i: int|
            0 <= i < events.len() ==> !(#[trigger] events[i] matches CacheEvent::Abandon(k) && k
                == key),
    ensures
        calls_issued(cache, events, key) <= 1,
        cache.contains_key(key) ==> calls_issued(cache, events, key) == 0,
        cache.contains_key(key) || calls_issued(cache, events, key) == 1 ==> after_events(
            cache,
            events,
        ).contains_key(key),
    decreases events.len(),
{
    if events.len() > 0 {
        let earlier = events.drop_last();
        assert forall|i: int| 0 <= i < earlier.len() implies !(#[trigger] earlier[i] matches CacheEvent::Abandon(
            k,
        ) && k == key) by {
            assert(earlier[i] == events[i]);
        }
        assert(events[events.len() - 1] == events.last());
        lemma_at_most_one_call(cache, earlier, key);
    }
}

/// Coalescing: from a cache that does not know `key`, and as long as the
/// request for `key` has neither resolved nor been taken back, any number
/// of fetches of `key`, mixed with anything that happens to other keys,
/// make the caller issue the underlying request exactly once (not at all if
/// there is no such fetch), and the continuations of all those fetches wait
/// in the order in which they came. [`ApiCache::complete`] hands out
/// exactly the waiting continuations, each with a copy of the one result.
pub proof fn lemma_coalescing<KV, R, W, H>(
    cache: Map<KV, RequestStateView<R, W, H>>,
    events: Seq<CacheEvent<KV, R, W, H>>,
    key: KV,
)
    requires
        !cache.contains_key(key),
        unresolved_during(events, key),
    ensures
        calls_issued(cache, events, key) == if callbacks_for(events, key).len() > 0 {
            1nat
        } else {
            0nat
        },
        waiting(after_events(cache, events), key) == callbacks_for(events, key),
        !resolved(after_events(cache, events), key),
        after_events(cache, events).contains_key(key) <==> callbacks_for(events, key).len() > 0,
    decreases events.len(),
{
    if events.len() > 0 {
        let earlier = events.drop_last();
        assert(unresolved_during(earlier, key)) by {
            assert forall|i: int| 0 <= i < earlier.len() implies match #[trigger] earlier[i] {
                CacheEvent::Complete(k, _) => k != key,
                CacheEvent::Abandon(k) => k != key,
                _ => true,
            } by {
                assert(earlier[i] == events[i]);
            }
        }
        lemma_coalescing(cache, earlier, key);
        let last = events.last();
        assert(last == events[events.len() - 1]);
        let at = after_events(cache, earlier);
        match last {
            CacheEvent::Fetch(k, callback) => {
                if k == key {
                    assert(waiting(fetched(at, k, callback), key) =~= callbacks_for(
                        earlier,
                        key,
                    ).push(callback));
                }
            },
            CacheEvent::InFlight(k, task) => {},
            CacheEvent::Complete(k, result) => {},
            CacheEvent::Abandon(k) => {},
        }
    }
}

/// A fresh start after a request that could not be started: when the
/// request for `key` is taken back, the key is unknown again. The
/// continuations that waited are handed back by [`ApiCache::abandon`], and
/// the next fetch of `key` is answered by [`FetchAction::Call`].
pub proof fn lemma_abandoned_is_unknown<KV, R, W, H>(
    cache: Map<KV, RequestStateView<R, W, H>>,
    key: KV,
    callback: W,
)
    requires
        lacks_handle(cache, key),
    ensures
        !abandoned(cache, key).contains_key(key),
        issues_call(abandoned(cache, key), CacheEvent::Fetch(key, callback), key),
        forall|other: KV|
            other != key ==> (abandoned(cache, key).contains_key(other) <==> cache.contains_key(
                other,
            )),
        forall|other: KV|
            other != key && cache.contains_key(other) ==> abandoned(cache, key)[other]
                == cache[other],
{
}

/// Permanence: once `key` has resolved, whatever happens afterwards leaves
/// its result in place, and the caller is never again told to issue the
/// underlying request for it. Every later [`ApiCache::fetch`] of `key` is
/// therefore answered by [`FetchAction::Deliver`] with a copy of that result.
pub proof fn lemma_permanence<KV, R, W, H>(
    cache: Map<KV, RequestStateView<R, W, H>>,
    events: Seq<CacheEvent<KV, R, W, H>>,
    key: KV,
)
    requires
        resolved(cache, key),
    ensures
        resolved(after_events(cache, events), key),
        after_events(cache, events)[key] == cache[key],
        calls_issued(cache, events, key) == 0,
        calls_ended(cache, events, key) == 0,
    decreases events.len(),
{
    if events.len() > 0 {
        lemma_permanence(cache, events.drop_last(), key);
    }
}

} // verus!
