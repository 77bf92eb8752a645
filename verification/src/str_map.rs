//! An ordered map keyed by strings, kept as a list sorted by key.
//!
//! It stands where a `BTreeMap` with `String` keys would: vstd specifies that
//! map only for key types whose order it knows, and `String` is not among
//! them. The list is iterated in the order in which `str` orders itself.

use crate::text::{
    compare, key_lt, lemma_key_lt_asymmetric, lemma_key_lt_irreflexive, lemma_key_lt_total,
    lemma_key_lt_transitive, Rank,
};
use vstd::prelude::*;

verus! {

/// The value stored under `k`, if any.
pub open spec fn lookup<T>(m: Seq<(Seq<char>, T)>, k: Seq<char>) -> Option<T>
    decreases m.len(),
{
    if m.len() == 0 {
        None
    } else if m[0].0 == k {
        Some(m[0].1)
    } else {
        lookup(m.drop_first(), k)
    }
}

/// `m` with `k` bound to `v`: an existing binding is replaced in place, a new
/// one goes before the first greater key.
pub open spec fn upsert<T>(m: Seq<(Seq<char>, T)>, k: Seq<char>, v: T) -> Seq<(Seq<char>, T)>
    decreases m.len(),
{
    if m.len() == 0 {
        seq![(k, v)]
    } else if m[0].0 == k {
        seq![(k, v)] + m.drop_first()
    } else if key_lt(k, m[0].0) {
        seq![(k, v)] + m
    } else {
        seq![m[0]] + upsert(m.drop_first(), k, v)
    }
}

/// `m` without the first binding of `k`.
pub open spec fn without<T>(m: Seq<(Seq<char>, T)>, k: Seq<char>) -> Seq<(Seq<char>, T)>
    decreases m.len(),
{
    if m.len() == 0 {
        m
    } else if m[0].0 == k {
        m.drop_first()
    } else {
        seq![m[0]] + without(m.drop_first(), k)
    }
}

/// Keys strictly ascending: nothing occurs twice and the order is fixed.
pub open spec fn sorted<T>(m: Seq<(Seq<char>, T)>) -> bool {
    forall|i: int, j: int| 0 <= i < j < m.len() ==> key_lt(#[trigger] m[i].0, #[trigger] m[j].0)
}

/// The keys of `m`, in order.
pub open spec fn keys_of<T>(m: Seq<(Seq<char>, T)>) -> Seq<Seq<char>> {
    m.map_values(|e: (Seq<char>, T)| e.0)
}

/// The first binding of a key is the one that `lookup` finds.
pub proof fn lemma_lookup_at<T>(m: Seq<(Seq<char>, T)>, k: Seq<char>, i: int)
    requires
        0 <= i < m.len(),
        m[i].0 == k,
        forall|j: int| 0 <= j < i ==> (#[trigger] m[j]).0 != k,
    ensures
        lookup(m, k) == Some(m[i].1),
    decreases m.len(),
{
    if i > 0 {
        assert(m[0].0 != k);
        let rest = m.drop_first();
        assert forall|j: int| 0 <= j < i - 1 implies (#[trigger] rest[j]).0 != k by {
            assert(rest[j] == m[j + 1]);
        }
        lemma_lookup_at(rest, k, i - 1);
    }
}

/// A key that stands nowhere in the list is not found.
pub proof fn lemma_lookup_absent<T>(m: Seq<(Seq<char>, T)>, k: Seq<char>)
    requires
        forall|j: int| 0 <= j < m.len() ==> (#[trigger] m[j]).0 != k,
    ensures
        lookup(m, k) is None,
    decreases m.len(),
{
    if m.len() > 0 {
        assert(m[0].0 != k);
        let rest = m.drop_first();
        assert forall|j: int| 0 <= j < rest.len() implies (#[trigger] rest[j]).0 != k by {
            assert(rest[j] == m[j + 1]);
        }
        lemma_lookup_absent(rest, k);
    }
}

/// A binding that `lookup` finds stands somewhere in the list.
pub proof fn lemma_lookup_found<T>(m: Seq<(Seq<char>, T)>, k: Seq<char>) -> (i: int)
    requires
        lookup(m, k) is Some,
    ensures
        0 <= i < m.len(),
        m[i].0 == k,
        lookup(m, k) == Some(m[i].1),
    decreases m.len(),
{
    if m[0].0 == k {
        0
    } else {
        let j = lemma_lookup_found(m.drop_first(), k);
        assert(m.drop_first()[j] == m[j + 1]);
        j + 1
    }
}

/// In a sorted list every key stands at one place only.
pub proof fn lemma_sorted_lookup<T>(m: Seq<(Seq<char>, T)>, i: int)
    requires
        sorted(m),
        0 <= i < m.len(),
    ensures
        lookup(m, m[i].0) == Some(m[i].1),
{
    assert forall|j: int| 0 <= j < i implies (#[trigger] m[j]).0 != m[i].0 by {
        lemma_key_lt_irreflexive(m[i].0);
    }
    lemma_lookup_at(m, m[i].0, i);
}

/// After `upsert` the key reads back the new value and every other key reads as before.
pub proof fn lemma_upsert_lookup<T>(m: Seq<(Seq<char>, T)>, k: Seq<char>, v: T, q: Seq<char>)
    ensures
        lookup(upsert(m, k, v), q) == if q == k {
            Some(v)
        } else {
            lookup(m, q)
        },
    decreases m.len(),
{
    let r = upsert(m, k, v);
    if m.len() == 0 {
        assert(r.drop_first() =~= m);
    } else if m[0].0 == k {
        assert(r.drop_first() =~= m.drop_first());
    } else if key_lt(k, m[0].0) {
        assert(r.drop_first() =~= m);
    } else {
        assert(r.drop_first() =~= upsert(m.drop_first(), k, v));
        lemma_upsert_lookup(m.drop_first(), k, v, q);
    }
}

/// Where `upsert` puts a binding, given the place `p` of the first key that is not less.
pub proof fn lemma_upsert_at<T>(m: Seq<(Seq<char>, T)>, k: Seq<char>, v: T, p: int)
    requires
        0 <= p <= m.len(),
        forall|j: int| 0 <= j < p ==> key_lt((#[trigger] m[j]).0, k),
        p < m.len() ==> !key_lt(m[p].0, k),
    ensures
        upsert(m, k, v) == if p < m.len() && m[p].0 == k {
            m.update(p, (k, v))
        } else {
            m.take(p) + seq![(k, v)] + m.skip(p)
        },
    decreases m.len(),
{
    if p == 0 {
        if m.len() > 0 {
            if m[0].0 == k {
                assert(seq![(k, v)] + m.drop_first() =~= m.update(0, (k, v)));
            } else {
                lemma_key_lt_total(k, m[0].0);
                assert(m.take(0) + seq![(k, v)] + m.skip(0) =~= seq![(k, v)] + m);
            }
        } else {
            assert(m.take(0) + seq![(k, v)] + m.skip(0) =~= seq![(k, v)]);
        }
    } else {
        assert(key_lt(m[0].0, k));
        lemma_key_lt_irreflexive(k);
        lemma_key_lt_asymmetric(m[0].0, k);
        let rest = m.drop_first();
        assert forall|j: int| 0 <= j < p - 1 implies key_lt((#[trigger] rest[j]).0, k) by {
            assert(rest[j] == m[j + 1]);
        }
        if p < m.len() {
            assert(rest[p - 1] == m[p]);
        }
        lemma_upsert_at(rest, k, v, p - 1);
        if p < m.len() && m[p].0 == k {
            assert(seq![m[0]] + rest.update(p - 1, (k, v)) =~= m.update(p, (k, v)));
        } else {
            assert(seq![m[0]] + (rest.take(p - 1) + seq![(k, v)] + rest.skip(p - 1)) =~= m.take(p)
                + seq![(k, v)] + m.skip(p));
        }
    }
}

/// Number of keys at the start of `m` that are less than `k`.
pub open spec fn rank<T>(m: Seq<(Seq<char>, T)>, k: Seq<char>) -> nat
    decreases m.len(),
{
    if m.len() == 0 || !key_lt(m[0].0, k) {
        0
    } else {
        1 + rank(m.drop_first(), k)
    }
}

/// In a sorted list the keys less than `k` are the first `rank(m, k)`.
pub proof fn lemma_rank<T>(m: Seq<(Seq<char>, T)>, k: Seq<char>)
    ensures
        rank(m, k) <= m.len(),
        forall|j: int| 0 <= j < rank(m, k) ==> key_lt((#[trigger] m[j]).0, k),
        rank(m, k) < m.len() ==> !key_lt(m[rank(m, k) as int].0, k),
    decreases m.len(),
{
    if m.len() == 0 || !key_lt(m[0].0, k) {
    } else {
        let rest = m.drop_first();
        lemma_rank(rest, k);
        assert forall|j: int| 0 <= j < rank(m, k) implies key_lt((#[trigger] m[j]).0, k) by {
            if j > 0 {
                assert(rest[j - 1] == m[j]);
            }
        }
        if rank(m, k) < m.len() {
            assert(rest[rank(rest, k) as int] == m[rank(m, k) as int]);
        }
    }
}

/// A key greater than all others goes to the end.
pub proof fn lemma_upsert_last<T>(m: Seq<(Seq<char>, T)>, k: Seq<char>, v: T)
    requires
        forall|j: int| 0 <= j < m.len() ==> key_lt((#[trigger] m[j]).0, k),
    ensures
        upsert(m, k, v) == m.push((k, v)),
{
    lemma_upsert_at(m, k, v, m.len() as int);
    assert(m.take(m.len() as int) + seq![(k, v)] + m.skip(m.len() as int) =~= m.push((k, v)));
}

/// `upsert` keeps a sorted list sorted.
pub proof fn lemma_upsert_sorted<T>(m: Seq<(Seq<char>, T)>, k: Seq<char>, v: T)
    requires
        sorted(m),
    ensures
        sorted(upsert(m, k, v)),
    decreases m.len(),
{
    let r = upsert(m, k, v);
    if m.len() == 0 {
    } else if m[0].0 == k {
        assert forall|i: int, j: int| 0 <= i < j < r.len() implies key_lt(
            #[trigger] r[i].0,
            #[trigger] r[j].0,
        ) by {
            assert(r[j] == m[j]);
            assert(r[i].0 == m[i].0);
        }
    } else if key_lt(k, m[0].0) {
        assert forall|i: int, j: int| 0 <= i < j < r.len() implies key_lt(
            #[trigger] r[i].0,
            #[trigger] r[j].0,
        ) by {
            assert(r[j] == m[j - 1]);
            if i == 0 {
                if j - 1 > 0 {
                    lemma_key_lt_transitive(k, m[0].0, m[j - 1].0);
                }
            } else {
                assert(r[i] == m[i - 1]);
            }
        }
    } else {
        let rest = m.drop_first();
        assert(sorted(rest)) by {
            assert forall|i: int, j: int| 0 <= i < j < rest.len() implies key_lt(
                #[trigger] rest[i].0,
                #[trigger] rest[j].0,
            ) by {
                assert(rest[i] == m[i + 1]);
                assert(rest[j] == m[j + 1]);
            }
        }
        lemma_upsert_sorted(rest, k, v);
        let tail = upsert(rest, k, v);
        lemma_key_lt_total(k, m[0].0);
        assert forall|i: int, j: int| 0 <= i < j < r.len() implies key_lt(
            #[trigger] r[i].0,
            #[trigger] r[j].0,
        ) by {
            assert(r[j] == tail[j - 1]);
            if i == 0 {
                // every key of the tail is the new key or a key of the rest
                lemma_upsert_keys(rest, k, v, j - 1);
                if tail[j - 1] != (k, v) {
                    let w = choose|w: int| 0 <= w < rest.len() && rest[w] == tail[j - 1];
                    assert(rest[w] == m[w + 1]);
                }
            } else {
                assert(r[i] == tail[i - 1]);
            }
        }
    }
}

/// Every binding after `upsert` is the new one or was there before.
pub proof fn lemma_upsert_keys<T>(m: Seq<(Seq<char>, T)>, k: Seq<char>, v: T, i: int)
    requires
        0 <= i < upsert(m, k, v).len(),
    ensures
        upsert(m, k, v)[i] == (k, v) || exists|w: int| 0 <= w < m.len() && m[w] == upsert(m, k, v)[i],
    decreases m.len(),
{
    let r = upsert(m, k, v);
    if m.len() == 0 {
    } else if m[0].0 == k {
        if i > 0 {
            assert(r[i] == m[i]);
        }
    } else if key_lt(k, m[0].0) {
        if i > 0 {
            assert(r[i] == m[i - 1]);
        }
    } else {
        if i == 0 {
            assert(r[0] == m[0]);
        } else {
            let rest = m.drop_first();
            lemma_upsert_keys(rest, k, v, i - 1);
            assert(r[i] == upsert(rest, k, v)[i - 1]);
            if r[i] != (k, v) {
                let w = choose|w: int| 0 <= w < rest.len() && rest[w] == r[i];
                assert(m[w + 1] == rest[w]);
            }
        }
    }
}

/// Two sorted lists in which every key reads the same are the same list.
pub proof fn lemma_sorted_unique<T>(a: Seq<(Seq<char>, T)>, b: Seq<(Seq<char>, T)>)
    requires
        sorted(a),
        sorted(b),
        forall|k: Seq<char>| lookup(a, k) == lookup(b, k),
    ensures
        a == b,
    decreases a.len(),
{
    if a.len() == 0 {
        if b.len() > 0 {
            lemma_sorted_lookup(b, 0);
            assert(lookup(a, b[0].0) is None);
        }
        assert(a =~= b);
    } else if b.len() == 0 {
        lemma_sorted_lookup(a, 0);
        assert(lookup(b, a[0].0) is None);
    } else {
        lemma_sorted_lookup(a, 0);
        lemma_sorted_lookup(b, 0);
        // the least key of each list is found in the other, so they agree
        let ia = lemma_lookup_found(b, a[0].0);
        let ib = lemma_lookup_found(a, b[0].0);
        if ia > 0 {
            assert(key_lt(b[0].0, b[ia].0));
            if ib > 0 {
                assert(key_lt(a[0].0, a[ib].0));
                lemma_key_lt_asymmetric(a[0].0, b[0].0);
            } else {
                lemma_key_lt_irreflexive(a[0].0);
            }
        }
        assert(a[0] == b[0]);
        let ra = a.drop_first();
        let rb = b.drop_first();
        assert(sorted(ra)) by {
            assert forall|i: int, j: int| 0 <= i < j < ra.len() implies key_lt(
                #[trigger] ra[i].0,
                #[trigger] ra[j].0,
            ) by {
                assert(ra[i] == a[i + 1]);
                assert(ra[j] == a[j + 1]);
            }
        }
        assert(sorted(rb)) by {
            assert forall|i: int, j: int| 0 <= i < j < rb.len() implies key_lt(
                #[trigger] rb[i].0,
                #[trigger] rb[j].0,
            ) by {
                assert(rb[i] == b[i + 1]);
                assert(rb[j] == b[j + 1]);
            }
        }
        assert forall|k: Seq<char>| lookup(ra, k) == lookup(rb, k) by {
            if k == a[0].0 {
                assert(lookup(ra, k) is None) by {
                    assert forall|j: int| 0 <= j < ra.len() implies (#[trigger] ra[j]).0 != k by {
                        assert(ra[j] == a[j + 1]);
                        lemma_key_lt_irreflexive(k);
                    }
                    lemma_lookup_absent(ra, k);
                }
                assert(lookup(rb, k) is None) by {
                    assert forall|j: int| 0 <= j < rb.len() implies (#[trigger] rb[j]).0 != k by {
                        assert(rb[j] == b[j + 1]);
                        lemma_key_lt_irreflexive(k);
                    }
                    lemma_lookup_absent(rb, k);
                }
            } else {
                assert(lookup(a, k) == lookup(b, k));
            }
        }
        lemma_sorted_unique(ra, rb);
        assert(a =~= seq![a[0]] + ra);
        assert(b =~= seq![b[0]] + rb);
    }
}

/// The list of bindings that a vector of pairs stands for.
pub open spec fn entries_view<V: View>(s: Seq<(String, V)>) -> Seq<(Seq<char>, V::V)> {
    s.map_values(|e: (String, V)| (e.0@, e.1@))
}

/// A map from strings to values, iterated in ascending key order.
///
/// Its view is the list of bindings, keys strictly ascending.
#[derive(Debug, PartialEq, Eq)]
pub struct StrMap<V: View> {
    entries: Vec<(String, V)>,
}

/// A map from strings to strings: the inputs of a chain, the defaults of a template.
pub type StringMap = StrMap<String>;

impl<V: View> View for StrMap<V> {
    type V = Seq<(Seq<char>, V::V)>;

    closed spec fn view(&self) -> Self::V {
        entries_view(self.entries@)
    }
}

impl<V: View> StrMap<V> {
    #[verifier::type_invariant]
    closed spec fn inv(self) -> bool {
        sorted(self@)
    }

    /// The empty map.
    pub fn new() -> (r: Self)
        ensures
            r@ == Seq::<(Seq<char>, V::V)>::empty(),
    {
        let r = StrMap { entries: Vec::new() };
        assert(r@ =~= Seq::<(Seq<char>, V::V)>::empty());
        r
    }

    /// Number of bindings. The list of bindings is always sorted.
    pub fn len(&self) -> (r: usize)
        ensures
            r == self@.len(),
            sorted(self@),
    {
        proof {
            use_type_invariant(self);
        }
        self.entries.len()
    }

    /// Whether the map holds no binding.
    pub fn is_empty(&self) -> (r: bool)
        ensures
            r == (self@.len() == 0),
    {
        self.entries.len() == 0
    }

    /// The key of the `i`-th binding in key order.
    pub fn key_at(&self, i: usize) -> (r: &String)
        requires
            i < self@.len(),
        ensures
            r@ == self@[i as int].0,
    {
        &self.entries[i].0
    }

    /// The value of the `i`-th binding in key order.
    pub fn value_at(&self, i: usize) -> (r: &V)
        requires
            i < self@.len(),
        ensures
            r@ == self@[i as int].1,
    {
        &self.entries[i].1
    }

    /// Place of the first key that is not less than `k`, and whether it is `k`.
    fn locate(&self, k: &str) -> (r: (usize, bool))
        ensures
            r.0 <= self@.len(),
            forall|j: int| 0 <= j < r.0 ==> key_lt((#[trigger] self@[j]).0, k@),
            r.0 < self@.len() ==> !key_lt(self@[r.0 as int].0, k@),
            r.1 == (r.0 < self@.len() && self@[r.0 as int].0 == k@),
    {
        let mut i: usize = 0;
        while i < self.entries.len()
            invariant
                i <= self.entries.len(),
                forall|j: int| 0 <= j < i ==> key_lt((#[trigger] self@[j]).0, k@),
            decreases self.entries.len() - i,
        {
            match compare(self.entries[i].0.as_str(), k) {
                Rank::Before => {},
                Rank::Same => {
                    proof {
                        lemma_key_lt_irreflexive(k@);
                    }
                    return (i, true);
                },
                Rank::After => {
                    return (i, false);
                },
            }
            i += 1;
        }
        (i, false)
    }

    /// The value bound to `k`, if there is one.
    pub fn get(&self, k: &str) -> (r: Option<&V>)
        ensures
            match r {
                Some(v) => lookup(self@, k@) == Some(v@),
                None => lookup(self@, k@) is None,
            },
    {
        let (i, found) = self.locate(k);
        proof {
            use_type_invariant(self);
            self.lemma_located(k@, i as int);
        }
        if found {
            Some(&self.entries[i].1)
        } else {
            None
        }
    }

    /// Whether `k` is bound.
    pub fn contains_key(&self, k: &str) -> (r: bool)
        ensures
            r == lookup(self@, k@).is_some(),
    {
        self.get(k).is_some()
    }

    proof fn lemma_located(self, k: Seq<char>, p: int)
        requires
            sorted(self@),
            0 <= p <= self@.len(),
            forall|j: int| 0 <= j < p ==> key_lt((#[trigger] self@[j]).0, k),
            p < self@.len() ==> !key_lt(self@[p].0, k),
        ensures
            p < self@.len() && self@[p].0 == k ==> lookup(self@, k) == Some(self@[p].1),
            !(p < self@.len() && self@[p].0 == k) ==> lookup(self@, k) is None,
    {
        let m = self@;
        if p < m.len() && m[p].0 == k {
            lemma_sorted_lookup(m, p);
        } else {
            assert forall|j: int| 0 <= j < m.len() implies (#[trigger] m[j]).0 != k by {
                lemma_key_lt_irreflexive(k);
                if j > p {
                    assert(key_lt(m[p].0, m[j].0));
                }
            }
            lemma_lookup_absent(m, k);
        }
    }

    /// Binds `k` to `v`, replacing what was bound to `k` before.
    pub fn insert(&mut self, k: String, v: V)
        ensures
            final(self)@ == upsert(old(self)@, k@, v@),
    {
        proof {
            use_type_invariant(&*self);
        }
        let (i, found) = self.locate(k.as_str());
        proof {
            lemma_upsert_at(self@, k@, v@, i as int);
            lemma_upsert_sorted(self@, k@, v@);
        }
        let ghost before = self@;
        let mut taken = StrMap::new();
        core::mem::swap(self, &mut taken);
        let mut entries = taken.entries;
        if found {
            entries.set(i, (k, v));
            assert(entries_view(entries@) =~= before.update(i as int, (k@, v@)));
        } else {
            entries.insert(i, (k, v));
            assert(entries_view(entries@) =~= before.take(i as int) + seq![(k@, v@)] + before.skip(
                i as int,
            ));
        }
        *self = StrMap { entries };
    }

    /// Takes the binding of `k` out, if there is one.
    pub fn remove(&mut self, k: &str)
        ensures
            final(self)@ == without(old(self)@, k@),
    {
        proof {
            use_type_invariant(&*self);
        }
        let (i, found) = self.locate(k);
        let ghost before = self@;
        proof {
            lemma_without_at(before, k@, i as int);
        }
        if found {
            let mut taken = StrMap::new();
            core::mem::swap(self, &mut taken);
            let mut entries = taken.entries;
            entries.remove(i);
            assert(entries_view(entries@) =~= before.remove(i as int));
            *self = StrMap { entries };
        }
    }
}

/// The rest of a sorted list is sorted.
pub proof fn lemma_sorted_rest<T>(m: Seq<(Seq<char>, T)>)
    requires
        sorted(m),
        m.len() > 0,
    ensures
        sorted(m.drop_first()),
{
    let rest = m.drop_first();
    assert forall|i: int, j: int| 0 <= i < j < rest.len() implies key_lt(
        #[trigger] rest[i].0,
        #[trigger] rest[j].0,
    ) by {
        assert(rest[i] == m[i + 1]);
        assert(rest[j] == m[j + 1]);
    }
}

/// A sorted list with one binding taken out is sorted.
pub proof fn lemma_sorted_remove<T>(m: Seq<(Seq<char>, T)>, p: int)
    requires
        sorted(m),
        0 <= p < m.len(),
    ensures
        sorted(m.remove(p)),
{
    let r = m.remove(p);
    assert forall|i: int, j: int| 0 <= i < j < r.len() implies key_lt(
        #[trigger] r[i].0,
        #[trigger] r[j].0,
    ) by {
        let i2 = if i < p { i } else { i + 1 };
        let j2 = if j < p { j } else { j + 1 };
        assert(r[i] == m[i2]);
        assert(r[j] == m[j2]);
        assert(key_lt(m[i2].0, m[j2].0));
    }
}

/// What `without` leaves, given the place `p` of the first key that is not less.
pub proof fn lemma_without_at<T>(m: Seq<(Seq<char>, T)>, k: Seq<char>, p: int)
    requires
        sorted(m),
        0 <= p <= m.len(),
        forall|j: int| 0 <= j < p ==> key_lt((#[trigger] m[j]).0, k),
        p < m.len() ==> !key_lt(m[p].0, k),
    ensures
        without(m, k) == if p < m.len() && m[p].0 == k {
            m.remove(p)
        } else {
            m
        },
        sorted(without(m, k)),
    decreases m.len(),
{
    if p < m.len() && m[p].0 == k {
        lemma_sorted_remove(m, p);
    }
    if m.len() == 0 {
    } else if m[0].0 == k {
        lemma_key_lt_irreflexive(k);
        assert(p == 0);
        assert(m.drop_first() =~= m.remove(0));
    } else if p == 0 {
        assert forall|j: int| 0 <= j < m.len() implies (#[trigger] m[j]).0 != k by {
            lemma_key_lt_irreflexive(k);
            if j > 0 {
                assert(key_lt(m[0].0, m[j].0));
            }
        }
        lemma_without_absent(m, k);
    } else {
        let rest = m.drop_first();
        lemma_sorted_rest(m);
        assert forall|j: int| 0 <= j < p - 1 implies key_lt((#[trigger] rest[j]).0, k) by {
            assert(rest[j] == m[j + 1]);
        }
        if p < m.len() {
            assert(rest[p - 1] == m[p]);
        }
        lemma_without_at(rest, k, p - 1);
        if p < m.len() && m[p].0 == k {
            assert(seq![m[0]] + rest.remove(p - 1) =~= m.remove(p));
        } else {
            assert(seq![m[0]] + rest =~= m);
        }
    }
}

/// Taking out a key that is not there changes nothing.
pub proof fn lemma_without_absent<T>(m: Seq<(Seq<char>, T)>, k: Seq<char>)
    requires
        forall|j: int| 0 <= j < m.len() ==> (#[trigger] m[j]).0 != k,
    ensures
        without(m, k) == m,
    decreases m.len(),
{
    if m.len() > 0 {
        assert(m[0].0 != k);
        let rest = m.drop_first();
        assert forall|j: int| 0 <= j < rest.len() implies (#[trigger] rest[j]).0 != k by {
            assert(rest[j] == m[j + 1]);
        }
        lemma_without_absent(rest, k);
        assert(seq![m[0]] + rest =~= m);
    }
}

impl Clone for StrMap<String> {
    fn clone(&self) -> (r: Self)
        ensures
            r@ == self@,
    {
        proof {
            use_type_invariant(self);
        }
        let mut out: Vec<(String, String)> = Vec::new();
        let mut i: usize = 0;
        while i < self.entries.len()
            invariant
                i <= self.entries.len(),
                entries_view(out@) == self@.take(i as int),
            decreases self.entries.len() - i,
        {
            let ghost before = entries_view(out@);
            out.push((self.entries[i].0.clone(), self.entries[i].1.clone()));
            assert(entries_view(out@) =~= before.push(self@[i as int]));
            assert(self@.take(i + 1) =~= self@.take(i as int).push(self@[i as int]));
            i += 1;
        }
        assert(self@.take(i as int) =~= self@);
        StrMap { entries: out }
    }
}

} // verus!
