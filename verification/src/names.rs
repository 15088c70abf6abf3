//! Ordered sets of names.

use vstd::prelude::*;
use vstd::string::*;
use vstd::utf8::*;
use crate::ast;
use crate::text;
use crate::text::same;

verus! {

/// Whether `a` comes before `b` when they are compared byte by byte from position
/// `i` on. A text comes before those that it starts.
pub open spec fn bytes_before(a: Seq<u8>, b: Seq<u8>, i: int) -> bool
    decreases b.len() - i,
{
    if i < 0 || i >= b.len() {
        false
    } else if i >= a.len() {
        true
    } else if a[i] != b[i] {
        a[i] < b[i]
    } else {
        bytes_before(a, b, i + 1)
    }
}

/// Whether the name `a` comes before the name `b`.
pub open spec fn before(a: Seq<char>, b: Seq<char>) -> bool {
    bytes_before(encode_utf8(a), encode_utf8(b), 0)
}

/// No text comes before itself.
pub proof fn lemma_irreflexive(a: Seq<u8>, i: int)
    ensures
        !bytes_before(a, a, i),
    decreases a.len() - i,
{
    if 0 <= i < a.len() {
        lemma_irreflexive(a, i + 1);
    }
}

/// Of two texts that agree up to `i`, one comes before the other unless they are
/// equal.
pub proof fn lemma_total(a: Seq<u8>, b: Seq<u8>, i: int)
    requires
        0 <= i <= a.len(),
        i <= b.len(),
        a.take(i) == b.take(i),
    ensures
        bytes_before(a, b, i) || bytes_before(b, a, i) || a == b,
    decreases b.len() - i,
{
    if i < a.len() && i < b.len() && a[i] == b[i] {
        assert(a.take(i + 1) =~= a.take(i).push(a[i]));
        assert(b.take(i + 1) =~= b.take(i).push(b[i]));
        lemma_total(a, b, i + 1);
    } else if i == a.len() && i == b.len() {
        assert(a =~= a.take(i));
        assert(b =~= b.take(i));
    }
}

/// What comes before a text comes before those behind it.
pub proof fn lemma_transitive(a: Seq<u8>, b: Seq<u8>, c: Seq<u8>, i: int)
    requires
        bytes_before(a, b, i),
        bytes_before(b, c, i),
    ensures
        bytes_before(a, c, i),
    decreases c.len() - i,
{
    if 0 <= i < c.len() && i < a.len() && i < b.len() && a[i] == b[i] && b[i] == c[i] {
        lemma_transitive(a, b, c, i + 1);
    }
}

/// Every name comes before those that follow it.
pub open spec fn is_sorted(s: Seq<Seq<char>>) -> bool {
    forall|i: int, j: int| 0 <= i < j < s.len() ==> before(#[trigger] s[i], #[trigger] s[j])
}

/// A set of names has one sorted list.
pub proof fn lemma_sorted_unique(a: Seq<Seq<char>>, b: Seq<Seq<char>>)
    requires
        is_sorted(a),
        is_sorted(b),
        a.to_set() == b.to_set(),
    ensures
        a == b,
    decreases a.len(),
{
    if a.len() == 0 {
        if b.len() > 0 {
            assert(b.to_set().contains(b[0]));
            assert(a.to_set().contains(b[0]));
        }
        assert(a =~= b);
    } else {
        assert(a.to_set().contains(a[0]));
        assert(b.to_set().contains(a[0]));
        assert(b.len() > 0);
        assert(b.to_set().contains(b[0]));
        assert(a.to_set().contains(b[0]));
        let j = choose|j: int| 0 <= j < b.len() && b[j] == a[0];
        let i = choose|i: int| 0 <= i < a.len() && a[i] == b[0];
        assert(a[0] == b[0]) by {
            if i > 0 && j > 0 {
                assert(before(a[0], a[i]));
                assert(before(b[0], b[j]));
                let x = encode_utf8(a[0]);
                let y = encode_utf8(b[0]);
                lemma_transitive(x, y, x, 0);
                lemma_irreflexive(x, 0);
            }
        }
        let x = a.drop_first();
        let y = b.drop_first();
        assert forall|n: Seq<char>| x.to_set().contains(n) == y.to_set().contains(n) by {
            if x.to_set().contains(n) {
                let k = choose|k: int| 0 <= k < x.len() && x[k] == n;
                assert(a[k + 1] == n);
                assert(before(a[0], a[k + 1]));
                lemma_irreflexive(encode_utf8(n), 0);
                assert(n != a[0]);
                assert(a.to_set().contains(n));
                assert(b.to_set().contains(n));
                let m = choose|m: int| 0 <= m < b.len() && b[m] == n;
                assert(y[m - 1] == n);
            }
            if y.to_set().contains(n) {
                let k = choose|k: int| 0 <= k < y.len() && y[k] == n;
                assert(b[k + 1] == n);
                assert(before(b[0], b[k + 1]));
                lemma_irreflexive(encode_utf8(n), 0);
                assert(n != b[0]);
                assert(b.to_set().contains(n));
                assert(a.to_set().contains(n));
                let m = choose|m: int| 0 <= m < a.len() && a[m] == n;
                assert(x[m - 1] == n);
            }
        }
        assert(x.to_set() =~= y.to_set());
        assert forall|i: int, j: int| 0 <= i < j < x.len() implies before(
            #[trigger] x[i],
            #[trigger] x[j],
        ) by {
            assert(before(a[i + 1], a[j + 1]));
        }
        assert forall|i: int, j: int| 0 <= i < j < y.len() implies before(
            #[trigger] y[i],
            #[trigger] y[j],
        ) by {
            assert(before(b[i + 1], b[j + 1]));
        }
        lemma_sorted_unique(x, y);
        assert(a =~= seq![a[0]] + x);
        assert(b =~= seq![b[0]] + y);
    }
}

/// Whether the name `a` comes before the name `b`.
pub fn comes_before(a: &str, b: &str) -> (r: bool)
    ensures
        r == before(a@, b@),
{
    let x = a.as_bytes();
    let y = b.as_bytes();
    let mut i: usize = 0;
    while i < x.len() && i < y.len() && x[i] == y[i]
        invariant
            i <= x@.len(),
            i <= y@.len(),
            bytes_before(x@, y@, 0) == bytes_before(x@, y@, i as int),
        decreases x@.len() - i,
    {
        i += 1;
    }
    if i >= y.len() {
        false
    } else if i >= x.len() {
        true
    } else {
        x[i] < y[i]
    }
}

/// An ordered set of names.
pub struct NameSet {
    names: Vec<String>,
}

impl View for NameSet {
    type V = Set<Seq<char>>;

    closed spec fn view(&self) -> Set<Seq<char>> {
        ast::names_of(self.names@).to_set()
    }
}

impl NameSet {
    /// The names are kept in order.
    pub closed spec fn well_formed(&self) -> bool {
        is_sorted(ast::names_of(self.names@))
    }

    /// The names, in order.
    pub closed spec fn list(&self) -> Seq<Seq<char>> {
        ast::names_of(self.names@)
    }

    /// The set without names.
    pub fn new() -> (r: Self)
        ensures
            r.well_formed(),
            r@ == Set::<Seq<char>>::empty(),
    {
        let r = NameSet { names: Vec::new() };
        assert(r@ =~= Set::<Seq<char>>::empty());
        r
    }

    /// The number of names.
    pub fn len(&self) -> (r: usize)
        ensures
            r == self.list().len(),
    {
        self.names.len()
    }

    /// The name at position `i` of the list.
    pub fn name_at(&self, i: usize) -> (r: &str)
        requires
            i < self.list().len(),
        ensures
            r@ == self.list()[i as int],
            self@.contains(r@),
    {
        proof {
            assert(ast::names_of(self.names@)[i as int] == self.names@[i as int]@);
        }
        self.names[i].as_str()
    }

    /// The set is that of the names in the list, and a set that keeps them in order
    /// lists them in order.
    pub proof fn lemma_list(&self)
        ensures
            self@ == self.list().to_set(),
            self.well_formed() ==> is_sorted(self.list()),
    {
    }

    /// Whether a name is in the set.
    pub fn contains(&self, name: &str) -> (r: bool)
        ensures
            r == self@.contains(name@),
    {
        let mut i: usize = 0;
        while i < self.names.len()
            invariant
                i <= self.names@.len(),
                forall|j: int| 0 <= j < i ==> (#[trigger] self.names@[j])@ != name@,
            decreases self.names@.len() - i,
        {
            if same(self.names[i].as_str(), name) {
                assert(ast::names_of(self.names@)[i as int] == name@);
                return true;
            }
            i += 1;
        }
        assert forall|j: int| 0 <= j < self.names@.len() implies ast::names_of(self.names@)[j]
            != name@ by {
            assert(self.names@[j]@ != name@);
        }
        false
    }

    /// Put a name into the set.
    pub fn insert(&mut self, name: String)
        requires
            old(self).well_formed(),
        ensures
            final(self).well_formed(),
            final(self)@ == old(self)@.insert(name@),
    {
        let ghost all = self.list();
        let mut i: usize = 0;
        while i < self.names.len() && comes_before(self.names[i].as_str(), name.as_str())
            invariant
                i <= self.names@.len(),
                all == ast::names_of(self.names@),
                forall|j: int| 0 <= j < i ==> before(#[trigger] all[j], name@),
            decreases self.names@.len() - i,
        {
            i += 1;
        }
        if i < self.names.len() && same(self.names[i].as_str(), name.as_str()) {
            proof {
                assert(all[i as int] == name@);
                assert(self@ =~= self@.insert(name@));
            }
            return;
        }
        self.names.insert(i, name);
        proof {
            let now = self.list();
            assert(now =~= all.insert(i as int, name@));
            if i < all.len() {
                let x = encode_utf8(all[i as int]);
                let y = encode_utf8(name@);
                assert(x.take(0) =~= y.take(0));
                lemma_total(x, y, 0);
                if x == y {
                    text::lemma_same_bytes(all[i as int], name@);
                }
            }
            assert forall|j: int, k: int| 0 <= j < k < now.len() implies before(
                #[trigger] now[j],
                #[trigger] now[k],
            ) by {
                if k < i {
                    assert(now[j] == all[j] && now[k] == all[k]);
                } else if k == i {
                    assert(now[j] == all[j]);
                } else if j < i {
                    assert(now[j] == all[j] && now[k] == all[k - 1]);
                } else if j == i {
                    assert(now[k] == all[k - 1]);
                    if k - 1 > i {
                        assert(before(all[i as int], all[k - 1]));
                        lemma_transitive(
                            encode_utf8(name@),
                            encode_utf8(all[i as int]),
                            encode_utf8(all[k - 1]),
                            0,
                        );
                    }
                } else {
                    assert(now[j] == all[j - 1] && now[k] == all[k - 1]);
                }
            }
            assert forall|n: Seq<char>| now.to_set().contains(n) == all.to_set().insert(
                name@,
            ).contains(n) by {
                if now.to_set().contains(n) {
                    let k = choose|k: int| 0 <= k < now.len() && now[k] == n;
                    if k < i {
                        assert(all[k] == n);
                    } else if k > i {
                        assert(all[k - 1] == n);
                    }
                }
                if all.to_set().contains(n) {
                    let k = choose|k: int| 0 <= k < all.len() && all[k] == n;
                    if k < i {
                        assert(now[k] == n);
                    } else {
                        assert(now[k + 1] == n);
                    }
                }
                if n == name@ {
                    assert(now[i as int] == n);
                }
            }
            assert(now.to_set() =~= all.to_set().insert(name@));
        }
    }

    /// Put the names of another set into the set.
    pub fn extend(&mut self, other: &NameSet)
        requires
            old(self).well_formed(),
        ensures
            final(self).well_formed(),
            final(self)@ == old(self)@.union(other@),
    {
        let ghost start = self@;
        let ghost all = other.list();
        let mut i: usize = 0;
        assert(all.take(0).to_set() =~= Set::empty());
        assert(start =~= start.union(all.take(0).to_set()));
        while i < other.names.len()
            invariant
                self.well_formed(),
                all == ast::names_of(other.names@),
                i <= all.len(),
                self@ == start.union(all.take(i as int).to_set()),
            decreases all.len() - i,
        {
            self.insert(other.names[i].clone());
            proof {
                lemma_take_insert(all, i as int);
                assert(self@ =~= start.union(all.take(i + 1).to_set()));
            }
            i += 1;
        }
        assert(all.take(i as int) =~= all);
    }

    /// Put the names of another set that are not in `without` into the set.
    pub fn extend_without(&mut self, other: &NameSet, without: &NameSet)
        requires
            old(self).well_formed(),
        ensures
            final(self).well_formed(),
            final(self)@ == old(self)@.union(other@.difference(without@)),
    {
        let ghost start = self@;
        let ghost all = other.list();
        let mut i: usize = 0;
        assert(all.take(0).to_set() =~= Set::empty());
        assert(start =~= start.union(all.take(0).to_set().difference(without@)));
        while i < other.names.len()
            invariant
                self.well_formed(),
                all == ast::names_of(other.names@),
                i <= all.len(),
                self@ == start.union(all.take(i as int).to_set().difference(without@)),
            decreases all.len() - i,
        {
            if !without.contains(other.names[i].as_str()) {
                self.insert(other.names[i].clone());
            }
            proof {
                lemma_take_insert(all, i as int);
                assert(self@ =~= start.union(all.take(i + 1).to_set().difference(without@)));
            }
            i += 1;
        }
        assert(all.take(i as int) =~= all);
    }

    /// The names, in order.
    pub fn into_names(self) -> (r: Vec<String>)
        ensures
            ast::names_of(r@) == self.list(),
    {
        self.names
    }
}

/// The names up to a position are those before it and the one at it.
proof fn lemma_take_insert(s: Seq<Seq<char>>, i: int)
    requires
        0 <= i < s.len(),
    ensures
        s.take(i + 1).to_set() == s.take(i).to_set().insert(s[i]),
{
    let x = s.take(i + 1);
    let y = s.take(i);
    assert forall|n: Seq<char>| x.to_set().contains(n) == y.to_set().insert(s[i]).contains(n) by {
        if x.to_set().contains(n) {
            let k = choose|k: int| 0 <= k < x.len() && x[k] == n;
            if k < i {
                assert(y[k] == n);
            }
        }
        if y.to_set().contains(n) {
            let k = choose|k: int| 0 <= k < y.len() && y[k] == n;
            assert(x[k] == n);
        }
        if n == s[i] {
            assert(x[i] == n);
        }
    }
    assert(x.to_set() =~= y.to_set().insert(s[i]));
}

} // verus!
