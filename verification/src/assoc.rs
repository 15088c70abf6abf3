//! A map from names to values that keeps the order in which the names were
//! first inserted. It is a list of entries; a name is found at its first entry.

use vstd::prelude::*;
use crate::text::same;

verus! {

/// Entry `i` is the first one named `key`.
pub open spec fn first_at<V>(entries: Seq<(Seq<char>, V)>, key: Seq<char>, i: int) -> bool {
    &&& 0 <= i < entries.len()
    &&& entries[i].0 == key
    &&& forall|j: int| 0 <= j < i ==> (#[trigger] entries[j]).0 != key
}

/// Whether an entry is named `key`.
#[verifier::opaque]
pub open spec fn defined<V>(entries: Seq<(Seq<char>, V)>, key: Seq<char>) -> bool {
    exists|i: int| first_at(entries, key, i)
}

/// The position of the first entry named `key`.
#[verifier::opaque]
pub open spec fn position<V>(entries: Seq<(Seq<char>, V)>, key: Seq<char>) -> int {
    choose|i: int| first_at(entries, key, i)
}

/// The value under `key`.
#[verifier::opaque]
pub open spec fn get<V>(entries: Seq<(Seq<char>, V)>, key: Seq<char>) -> Option<V> {
    if defined(entries, key) {
        Some(entries[position(entries, key)].1)
    } else {
        None
    }
}

/// The entries after `value` is put under `key`: it replaces the value that was
/// there, or becomes the last entry.
#[verifier::opaque]
pub open spec fn put<V>(entries: Seq<(Seq<char>, V)>, key: Seq<char>, value: V) -> Seq<(Seq<char>, V)> {
    if defined(entries, key) {
        entries.update(position(entries, key), (key, value))
    } else {
        entries.push((key, value))
    }
}

/// No two entries have the same name.
pub open spec fn distinct<V>(entries: Seq<(Seq<char>, V)>) -> bool {
    forall|i: int, j: int|
        0 <= i < j < entries.len() ==> (#[trigger] entries[i]).0 != (#[trigger] entries[j]).0
}

/// The entries with `f` applied to every value.
pub open spec fn mapped<V, W>(entries: Seq<(Seq<char>, V)>, f: spec_fn(V) -> W) -> Seq<(Seq<char>, W)> {
    Seq::new(entries.len(), |i: int| (entries[i].0, f(entries[i].1)))
}

/// An entry that is the first of its name is the one `position` gives.
pub proof fn lemma_first_at<V>(entries: Seq<(Seq<char>, V)>, key: Seq<char>, i: int)
    requires
        first_at(entries, key, i),
    ensures
        defined(entries, key),
        position(entries, key) == i,
        get(entries, key) == Some(entries[i].1),
{
    reveal(defined);
    reveal(position);
    reveal(get);
    let p = position(entries, key);
    assert(first_at(entries, key, p));
    if p < i {
        assert(entries[p].0 != key);
    } else if i < p {
        assert(entries[i].0 != key);
    }
}

/// A name that no entry has is absent.
pub proof fn lemma_absent<V>(entries: Seq<(Seq<char>, V)>, key: Seq<char>)
    requires
        forall|j: int| 0 <= j < entries.len() ==> (#[trigger] entries[j]).0 != key,
    ensures
        !defined(entries, key),
        get(entries, key) is None,
{
    reveal(defined);
    reveal(get);
}

/// A name that some entry has is present.
pub proof fn lemma_present<V>(entries: Seq<(Seq<char>, V)>, key: Seq<char>, i: int)
    requires
        0 <= i < entries.len(),
        entries[i].0 == key,
    ensures
        defined(entries, key),
        position(entries, key) <= i,
    decreases i,
{
    reveal(defined);
    if forall|j: int| 0 <= j < i ==> (#[trigger] entries[j]).0 != key {
        assert(first_at(entries, key, i));
        lemma_first_at(entries, key, i);
    } else {
        let j = choose|j: int| 0 <= j < i && (#[trigger] entries[j]).0 == key;
        lemma_present(entries, key, j);
    }
}

/// What is put under a name is found there, and other names keep what they had.
pub proof fn lemma_put_get<V>(entries: Seq<(Seq<char>, V)>, key: Seq<char>, value: V, other: Seq<char>)
    ensures
        get(put(entries, key, value), other) == if other == key {
            Some(value)
        } else {
            get(entries, other)
        },
{
    reveal(put);
    reveal(get);
    reveal(defined);
    reveal(position);
    let after = put(entries, key, value);
    let p = if defined(entries, key) { position(entries, key) } else { entries.len() as int };
    if other == key {
        assert(first_at(after, key, p)) by {
            if !defined(entries, key) {
                assert forall|j: int| 0 <= j < p implies (#[trigger] after[j]).0 != key by {
                    if entries[j].0 == key {
                        lemma_present(entries, key, j);
                    }
                }
            } else {
                assert(first_at(entries, key, p));
                assert forall|j: int| 0 <= j < p implies (#[trigger] after[j]).0 != key by {
                    assert(entries[j].0 != key);
                }
            }
        }
        lemma_first_at(after, key, p);
    } else if defined(entries, other) {
        let q = position(entries, other);
        assert(first_at(entries, other, q));
        assert(after[q] == entries[q]);
        assert forall|j: int| 0 <= j < q implies (#[trigger] after[j]).0 != other by {
            assert(entries[j].0 != other);
        }
        assert(first_at(after, other, q));
        lemma_first_at(after, other, q);
    } else {
        assert forall|j: int| 0 <= j < after.len() implies (#[trigger] after[j]).0 != other by {
            if after[j].0 == other {
                assert(j < entries.len() && entries[j].0 == other);
                lemma_present(entries, other, j);
            }
        }
        lemma_absent(after, other);
    }
}

/// Putting a value keeps the names distinct.
pub proof fn lemma_put_distinct<V>(entries: Seq<(Seq<char>, V)>, key: Seq<char>, value: V)
    requires
        distinct(entries),
    ensures
        distinct(put(entries, key, value)),
{
    reveal(put);
    reveal(defined);
    reveal(position);
    let after = put(entries, key, value);
    if defined(entries, key) {
        let p = position(entries, key);
        assert(first_at(entries, key, p));
        assert forall|i: int, j: int| 0 <= i < j < after.len() implies (#[trigger] after[i]).0 != (
        #[trigger] after[j]).0 by {
            assert(entries[i].0 != entries[j].0);
        }
    } else {
        assert forall|i: int, j: int| 0 <= i < j < after.len() implies (#[trigger] after[i]).0 != (
        #[trigger] after[j]).0 by {
            if j < entries.len() {
                assert(entries[i].0 != entries[j].0);
            } else if entries[i].0 == key {
                lemma_present(entries, key, i);
            }
        }
    }
}

/// Looking a name up commutes with mapping the values.
pub proof fn lemma_mapped_get<V, W>(entries: Seq<(Seq<char>, V)>, f: spec_fn(V) -> W, key: Seq<char>)
    ensures
        defined(mapped(entries, f), key) == defined(entries, key),
        defined(entries, key) ==> position(mapped(entries, f), key) == position(entries, key),
        get(mapped(entries, f), key) == match get(entries, key) {
            Some(v) => Some(f(v)),
            None => None,
        },
{
    reveal(get);
    reveal(defined);
    reveal(position);
    let m = mapped(entries, f);
    if defined(entries, key) {
        let p = position(entries, key);
        assert(first_at(entries, key, p));
        assert forall|j: int| 0 <= j < p implies (#[trigger] m[j]).0 != key by {
            assert(entries[j].0 != key);
        }
        assert(first_at(m, key, p));
        lemma_first_at(m, key, p);
    } else {
        assert forall|j: int| 0 <= j < m.len() implies (#[trigger] m[j]).0 != key by {
            if entries[j].0 == key {
                lemma_present(entries, key, j);
            }
        }
        lemma_absent(m, key);
    }
}

/// Putting a value commutes with mapping the values.
pub proof fn lemma_mapped_put<V, W>(
    entries: Seq<(Seq<char>, V)>,
    f: spec_fn(V) -> W,
    key: Seq<char>,
    value: V,
)
    ensures
        mapped(put(entries, key, value), f) == put(mapped(entries, f), key, f(value)),
{
    reveal(put);
    reveal(defined);
    reveal(position);
    lemma_mapped_get(entries, f, key);
    if defined(entries, key) {
        assert(first_at(entries, key, position(entries, key)));
    }
    assert(mapped(put(entries, key, value), f) =~= put(mapped(entries, f), key, f(value)));
}

/// A map from names to values, in the order in which the names were first
/// inserted.
#[derive(Debug, PartialEq)]
pub struct NameMap<V> {
    entries: Vec<(String, V)>,
}

impl<V> View for NameMap<V> {
    type V = Seq<(Seq<char>, V)>;

    closed spec fn view(&self) -> Seq<(Seq<char>, V)> {
        Seq::new(self.entries@.len(), |i: int| (self.entries@[i].0@, self.entries@[i].1))
    }
}

impl<V> NameMap<V> {
    /// The map without entries.
    pub fn new() -> (r: Self)
        ensures
            r@ == Seq::<(Seq<char>, V)>::empty(),
    {
        let r = NameMap { entries: Vec::new() };
        assert(r@ =~= Seq::<(Seq<char>, V)>::empty());
        r
    }

    /// The number of entries.
    pub fn len(&self) -> (r: usize)
        ensures
            r == self@.len(),
    {
        self.entries.len()
    }

    /// The name of entry `i`.
    pub fn name_at(&self, i: usize) -> (r: &str)
        requires
            i < self@.len(),
        ensures
            r@ == self@[i as int].0,
    {
        self.entries[i].0.as_str()
    }

    /// The value of entry `i`.
    pub fn value_at(&self, i: usize) -> (r: &V)
        requires
            i < self@.len(),
        ensures
            *r == self@[i as int].1,
    {
        &self.entries[i].1
    }

    /// The value of entry `i`, to be changed.
    pub fn value_at_mut(&mut self, i: usize) -> (r: &mut V)
        requires
            i < old(self)@.len(),
        ensures
            *r == old(self)@[i as int].1,
            final(self)@ == old(self)@.update(i as int, (old(self)@[i as int].0, *final(r))),
    {
        &mut self.entries[i].1
    }

    /// The position of the entry named `key`.
    pub fn find(&self, key: &str) -> (r: Option<usize>)
        ensures
            match r {
                Some(i) => defined(self@, key@) && position(self@, key@) == i && i < self@.len(),
                None => !defined(self@, key@),
            },
    {
        reveal(defined);
        let mut i: usize = 0;
        while i < self.entries.len()
            invariant
                i <= self@.len(),
                self@.len() == self.entries@.len(),
                forall|j: int| 0 <= j < i ==> (#[trigger] self@[j]).0 != key@,
            decreases self@.len() - i,
        {
            if same(self.entries[i].0.as_str(), key) {
                proof {
                    assert(self@[i as int].0 == key@);
                    assert(first_at(self@, key@, i as int));
                    lemma_first_at(self@, key@, i as int);
                }
                return Some(i);
            }
            i += 1;
        }
        None
    }

    /// The value under `key`.
    pub fn get(&self, key: &str) -> (r: Option<&V>)
        ensures
            match r {
                Some(v) => get(self@, key@) == Some(*v),
                None => get(self@, key@) is None,
            },
    {
        reveal(get);
        match self.find(key) {
            Some(i) => Some(&self.entries[i].1),
            None => None,
        }
    }

    /// Whether an entry is named `key`.
    pub fn contains_key(&self, key: &str) -> (r: bool)
        ensures
            r == defined(self@, key@),
    {
        self.find(key).is_some()
    }

    /// Add an entry, whether or not another one has its name.
    pub fn append(&mut self, key: String, value: V)
        ensures
            final(self)@ == old(self)@.push((key@, value)),
    {
        let ghost before = self@;
        self.entries.push((key, value));
        assert(self@ =~= before.push((key@, value)));
    }

    /// Put `value` under `key`, in place of the value that was there.
    pub fn insert(&mut self, key: String, value: V)
        ensures
            final(self)@ == put(old(self)@, key@, value),
    {
        reveal(put);
        let ghost before = self@;
        match self.find(key.as_str()) {
            Some(i) => {
                self.entries.set(i, (key, value));
            },
            None => {
                self.entries.push((key, value));
            },
        }
        assert(self@ =~= put(before, key@, value));
    }
}

} // verus!
