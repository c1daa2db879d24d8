//! Request keys, and the association between distinct keys and the state
//! kept for each of them.

use vstd::prelude::*;

verus! {

/// A value that identifies one logical request.
///
/// Two keys stand for the same request exactly when their views are equal.
pub trait RequestKey: View + Sized {
    /// Whether `self` and `other` identify the same request.
    fn same_key(&self, other: &Self) -> (same: bool)
        ensures
            same == (self@ == other@),
    ;

    /// A second key for the same request.
    fn clone_key(&self) -> (copy: Self)
        ensures
            copy@ == self@,
    ;
}

impl RequestKey for u32 {
    fn same_key(&self, other: &Self) -> (same: bool) {
        *self == *other
    }

    fn clone_key(&self) -> (copy: Self) {
        *self
    }
}

impl RequestKey for String {
    fn same_key(&self, other: &Self) -> (same: bool) {
        *self == *other
    }

    fn clone_key(&self) -> (copy: Self) {
        self.clone()
    }
}

/// A result that can be handed to several parties: each gets a value of
/// its own with the same content.
pub trait Payload: Sized {
    /// The mathematical content of a result.
    type Content;

    spec fn content(&self) -> Self::Content;

    /// A second value with the same content.
    fn replicate(&self) -> (copy: Self)
        ensures
            copy.content() == self.content(),
    ;
}

impl Payload for String {
    type Content = Seq<char>;

    open spec fn content(&self) -> Seq<char> {
        self@
    }

    fn replicate(&self) -> (copy: Self) {
        self.clone()
    }
}

/// The views of a list of keys, in the list's order.
pub open spec fn key_views<K: View>(keys: Seq<K>) -> Seq<K::V> {
    Seq::new(keys.len(), |i: int| keys[i]@)
}

/// The values of a list of keyed entries, in the list's order.
pub open spec fn entry_values<K, S>(entries: Seq<(K, S)>) -> Seq<S> {
    Seq::new(entries.len(), |i: int| entries[i].1)
}

/// A list of keyed entries with each key replaced by its view.
pub open spec fn entry_views<K: View, S>(entries: Seq<(K, S)>) -> Seq<(K::V, S)> {
    Seq::new(entries.len(), |i: int| (entries[i].0@, entries[i].1))
}

/// The views of the keys of a list of keyed entries, in the list's order.
pub open spec fn entry_keys<K: View, S>(entries: Seq<(K, S)>) -> Seq<K::V> {
    Seq::new(entries.len(), |i: int| entries[i].0@)
}

/// The first position at which `key` stands in a list of keyed entries.
pub fn position<K: RequestKey, S>(entries: &Vec<(K, S)>, key: &K) -> (found: Option<usize>)
    ensures
        match found {
            Some(i) => {
                &&& i < entries.len()
                &&& entry_keys(entries@)[i as int] == key@
                &&& forall|j: int| 0 <= j < i ==> entry_keys(entries@)[j] != key@
            },
            None => !entry_keys(entries@).contains(key@),
        },
{
    let mut i: usize = 0;
    while i < entries.len()
        invariant
            i <= entries.len(),
            forall|j: int| 0 <= j < i ==> entry_keys(entries@)[j] != key@,
        decreases entries.len() - i,
    {
        if entries[i].0.same_key(key) {
            return Some(i);
        }
        i = i + 1;
    }
    None
}

/// The map that sends each key of `keys` to the value at the same position
/// of `values`.
pub open spec fn assoc<A, B>(keys: Seq<A>, values: Seq<B>) -> Map<A, B> {
    Map::new(|k: A| keys.contains(k), |k: A| values[keys.index_of(k)])
}

/// With distinct keys, the association holds at each key the value that
/// stands at the key's position, and nothing else.
pub proof fn lemma_assoc_at<A, B>(keys: Seq<A>, values: Seq<B>, i: int)
    requires
        keys.no_duplicates(),
        0 <= i < keys.len(),
    ensures
        assoc(keys, values).contains_key(keys[i]),
        assoc(keys, values)[keys[i]] == values[i],
        keys.index_of(keys[i]) == i,
{
    assert(keys.contains(keys[i]));
}

/// A key that stands at no position is not in the association.
pub proof fn lemma_assoc_absent<A, B>(keys: Seq<A>, values: Seq<B>, k: A)
    requires
        !keys.contains(k),
    ensures
        !assoc(keys, values).contains_key(k),
{
}

/// Appending a fresh key with its value inserts that pair.
pub proof fn lemma_assoc_push<A, B>(keys: Seq<A>, values: Seq<B>, k: A, v: B)
    requires
        keys.no_duplicates(),
        keys.len() == values.len(),
        !keys.contains(k),
    ensures
        keys.push(k).no_duplicates(),
        assoc(keys.push(k), values.push(v)) == assoc(keys, values).insert(k, v),
{
    let keys2 = keys.push(k);
    let values2 = values.push(v);
    assert(keys2.no_duplicates()) by {
        assert forall|i: int, j: int|
            0 <= i < keys2.len() && 0 <= j < keys2.len() && i != j implies keys2[i] != keys2[j] by {
            if i < keys.len() && j < keys.len() {
            } else if i < keys.len() {
                assert(keys.contains(keys[i]));
            } else {
                assert(keys.contains(keys[j]));
            }
        }
    }
    assert forall|x: A| #[trigger]
        assoc(keys2, values2).contains_key(x) == assoc(keys, values).insert(k, v).contains_key(
            x,
        ) by {
        if keys2.contains(x) {
            let i = choose|i: int| 0 <= i < keys2.len() && keys2[i] == x;
            if i < keys.len() {
                assert(keys[i] == x);
            }
        }
        if keys.contains(x) {
            let i = choose|i: int| 0 <= i < keys.len() && keys[i] == x;
            assert(keys2[i] == x);
        }
        if x == k {
            assert(keys2[keys.len() as int] == x);
        }
    }
    assert forall|x: A| #[trigger] assoc(keys2, values2).contains_key(x) implies assoc(
        keys2,
        values2,
    )[x] == assoc(keys, values).insert(k, v)[x] by {
        let i = keys2.index_of(x);
        lemma_assoc_at(keys2, values2, i);
        if i < keys.len() {
            lemma_assoc_at(keys, values, i);
        }
    }
    assert(assoc(keys2, values2) =~= assoc(keys, values).insert(k, v));
}

/// Replacing the value at a position replaces the value of the key that
/// stands there.
pub proof fn lemma_assoc_update<A, B>(keys: Seq<A>, values: Seq<B>, i: int, v: B)
    requires
        keys.no_duplicates(),
        keys.len() == values.len(),
        0 <= i < keys.len(),
    ensures
        assoc(keys, values.update(i, v)) == assoc(keys, values).insert(keys[i], v),
{
    let values2 = values.update(i, v);
    assert(keys.contains(keys[i]));
    assert forall|x: A| #[trigger] assoc(keys, values2).contains_key(x) implies assoc(
        keys,
        values2,
    )[x] == assoc(keys, values).insert(keys[i], v)[x] by {
        let j = keys.index_of(x);
        lemma_assoc_at(keys, values2, j);
        lemma_assoc_at(keys, values, j);
    }
    assert(assoc(keys, values2) =~= assoc(keys, values).insert(keys[i], v));
}

/// Taking out the entry at a position removes the key that stands there,
/// and nothing else.
pub proof fn lemma_assoc_remove<A, B>(keys: Seq<A>, values: Seq<B>, i: int)
    requires
        keys.no_duplicates(),
        keys.len() == values.len(),
        0 <= i < keys.len(),
    ensures
        keys.remove(i).no_duplicates(),
        assoc(keys.remove(i), values.remove(i)) == assoc(keys, values).remove(keys[i]),
{
    let keys2 = keys.remove(i);
    let values2 = values.remove(i);
    assert forall|j: int| 0 <= j < keys2.len() implies keys2[j] == keys[if j < i {
        j
    } else {
        j + 1
    }] && values2[j] == values[if j < i {
        j
    } else {
        j + 1
    }] by {}
    assert(keys2.no_duplicates());
    assert forall|x: A| #[trigger]
        assoc(keys2, values2).contains_key(x) == assoc(keys, values).remove(keys[i]).contains_key(
            x,
        ) by {
        if keys2.contains(x) {
            let j = choose|j: int| 0 <= j < keys2.len() && keys2[j] == x;
            let k = if j < i {
                j
            } else {
                j + 1
            };
            assert(keys[k] == x);
        }
        if keys.contains(x) && x != keys[i] {
            let k = choose|k: int| 0 <= k < keys.len() && keys[k] == x;
            let j = if k < i {
                k
            } else {
                k - 1
            };
            assert(keys2[j] == x);
        }
    }
    assert forall|x: A| #[trigger] assoc(keys2, values2).contains_key(x) implies assoc(
        keys2,
        values2,
    )[x] == assoc(keys, values).remove(keys[i])[x] by {
        let j = keys2.index_of(x);
        lemma_assoc_at(keys2, values2, j);
        let k = if j < i {
            j
        } else {
            j + 1
        };
        lemma_assoc_at(keys, values, k);
    }
    assert(assoc(keys2, values2) =~= assoc(keys, values).remove(keys[i]));
}

} // verus!
