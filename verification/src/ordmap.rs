//! An ordered map kept as a vector of entries in ascending key order.
//!
//! The model of a map is the sequence of its entries. [`slot`] is the number of entries that stand
//! before a key, and [`lookup`], [`put`] and [`without`] are reading, inserting and removing there.
use vstd::prelude::*;

use crate::text;

verus! {

/// A type whose values can be copied.
pub trait Dup: View + Sized {
    /// An equal copy.
    fn dup(&self) -> (r: Self)
        ensures
            r@ == self@,
    ;
}

impl Dup for () {
    fn dup(&self) -> (r: Self) {
    }
}

impl Dup for usize {
    fn dup(&self) -> (r: Self) {
        *self
    }
}

impl Dup for u32 {
    fn dup(&self) -> (r: Self) {
        *self
    }
}

impl Dup for u64 {
    fn dup(&self) -> (r: Self) {
        *self
    }
}

impl Dup for Option<usize> {
    fn dup(&self) -> (r: Self) {
        *self
    }
}

impl Dup for String {
    fn dup(&self) -> (r: Self) {
        text::owned(self.as_str())
    }
}

/// The views of the elements of a sequence.
pub open spec fn views<T: View>(s: Seq<T>) -> Seq<T::V> {
    Seq::new(s.len(), |i: int| s[i]@)
}

/// The view of what an option holds.
pub open spec fn opt_view<T: View>(o: Option<T>) -> Option<T::V> {
    match o {
        Some(t) => Some(t@),
        None => None,
    }
}

/// A vector of equal copies.
pub fn vec_dup<T: Dup>(v: &Vec<T>) -> (r: Vec<T>)
    ensures
        views(r@) == views(v@),
{
    let mut out: Vec<T> = Vec::new();
    let mut i: usize = 0;
    while i < v.len()
        invariant
            i <= v.len(),
            out.len() == i,
            forall|j: int| 0 <= j < i ==> (#[trigger] out@[j])@ == v@[j]@,
        decreases v.len() - i,
    {
        let x = v[i].dup();
        out.push(x);
        i = i + 1;
    }
    assert(views(out@) =~= views(v@));
    out
}

/// An equal copy of an option.
pub fn opt_dup<T: Dup>(o: &Option<T>) -> (r: Option<T>)
    ensures
        opt_view(r) == opt_view(*o),
{
    match o {
        Some(t) => Some(t.dup()),
        None => None,
    }
}

/// A type whose values are totally ordered.
pub trait Key: Dup {
    /// `a` comes before `b`.
    spec fn key_lt(a: Self::V, b: Self::V) -> bool;

    proof fn key_lt_irreflexive(a: Self::V)
        ensures
            !Self::key_lt(a, a),
    ;

    proof fn key_lt_transitive(a: Self::V, b: Self::V, c: Self::V)
        requires
            Self::key_lt(a, b),
            Self::key_lt(b, c),
        ensures
            Self::key_lt(a, c),
    ;

    proof fn key_lt_total(a: Self::V, b: Self::V)
        ensures
            Self::key_lt(a, b) || a == b || Self::key_lt(b, a),
    ;

    fn before(&self, other: &Self) -> (r: bool)
        ensures
            r == Self::key_lt(self@, other@),
    ;

    fn same(&self, other: &Self) -> (r: bool)
        ensures
            r == (self@ == other@),
    ;
}

impl Key for String {
    open spec fn key_lt(a: Seq<char>, b: Seq<char>) -> bool {
        text::text_lt(a, b)
    }

    proof fn key_lt_irreflexive(a: Seq<char>) {
        text::lemma_text_lt_irreflexive(a);
    }

    proof fn key_lt_transitive(a: Seq<char>, b: Seq<char>, c: Seq<char>) {
        text::lemma_text_lt_transitive(a, b, c);
    }

    proof fn key_lt_total(a: Seq<char>, b: Seq<char>) {
        text::lemma_text_lt_total(a, b);
    }

    fn before(&self, other: &Self) -> (r: bool) {
        text::text_before(self.as_str(), other.as_str())
    }

    fn same(&self, other: &Self) -> (r: bool) {
        text::text_same(self.as_str(), other.as_str())
    }
}

/// From position `i` on, the first position whose key does not come before `k`.
pub open spec fn slot<K: Key, T>(s: Seq<(K::V, T)>, k: K::V, i: int) -> int
    decreases s.len() - i,
{
    if 0 <= i < s.len() && K::key_lt(s[i].0, k) {
        slot::<K, T>(s, k, i + 1)
    } else {
        i
    }
}

/// The position of `k` holds an entry for `k`.
pub open spec fn holds<K: Key, T>(s: Seq<(K::V, T)>, k: K::V) -> bool {
    let p = slot::<K, T>(s, k, 0);
    0 <= p < s.len() && s[p].0 == k
}

/// The value at `k`, if there is one.
pub open spec fn lookup<K: Key, T>(s: Seq<(K::V, T)>, k: K::V) -> Option<T> {
    if holds::<K, T>(s, k) {
        Some(s[slot::<K, T>(s, k, 0)].1)
    } else {
        None
    }
}

/// `s` with `v` at `k`: in place of the value there, or as a new entry in its place.
pub open spec fn put<K: Key, T>(s: Seq<(K::V, T)>, k: K::V, v: T) -> Seq<(K::V, T)> {
    let p = slot::<K, T>(s, k, 0);
    if holds::<K, T>(s, k) {
        s.update(p, (k, v))
    } else {
        s.insert(p, (k, v))
    }
}

/// `s` with no entry at the position of `k`.
pub open spec fn without<K: Key, T>(s: Seq<(K::V, T)>, k: K::V) -> Seq<(K::V, T)> {
    if holds::<K, T>(s, k) {
        s.remove(slot::<K, T>(s, k, 0))
    } else {
        s
    }
}

/// Each key stands before all later ones, so none occurs twice.
pub open spec fn ascending<K: Key, T>(s: Seq<(K::V, T)>) -> bool {
    forall|i: int, j: int| 0 <= i < j < s.len() ==> K::key_lt(#[trigger] s[i].0, #[trigger] s[j].0)
}

/// What stands before the position of `k`, and what stands at it.
pub proof fn lemma_slot<K: Key, T>(s: Seq<(K::V, T)>, k: K::V, i: int)
    requires
        0 <= i <= s.len(),
    ensures
        i <= slot::<K, T>(s, k, i) <= s.len(),
        forall|j: int| i <= j < slot::<K, T>(s, k, i) ==> K::key_lt(#[trigger] s[j].0, k),
        slot::<K, T>(s, k, i) < s.len() ==> !K::key_lt(s[slot::<K, T>(s, k, i)].0, k),
    decreases s.len() - i,
{
    if i < s.len() && K::key_lt(s[i].0, k) {
        lemma_slot::<K, T>(s, k, i + 1);
    }
}

/// A position with smaller keys before it and no smaller key at it is the position of `k`.
pub proof fn lemma_slot_is<K: Key, T>(s: Seq<(K::V, T)>, k: K::V, i: int, p: int)
    requires
        0 <= i <= p <= s.len(),
        forall|j: int| i <= j < p ==> K::key_lt(#[trigger] s[j].0, k),
        p < s.len() ==> !K::key_lt(s[p].0, k),
    ensures
        slot::<K, T>(s, k, i) == p,
    decreases p - i,
{
    if i < p {
        assert(K::key_lt(s[i].0, k));
        lemma_slot_is::<K, T>(s, k, i + 1, p);
    }
}

/// In an ascending map, a key is found wherever it stands.
pub proof fn lemma_found<K: Key, T>(s: Seq<(K::V, T)>, i: int)
    requires
        ascending::<K, T>(s),
        0 <= i < s.len(),
    ensures
        lookup::<K, T>(s, s[i].0) == Some(s[i].1),
        slot::<K, T>(s, s[i].0, 0) == i,
{
    K::key_lt_irreflexive(s[i].0);
    lemma_slot_is::<K, T>(s, s[i].0, 0, i);
}

/// Inserting keeps a map ascending.
pub proof fn lemma_put_ascending<K: Key, T>(s: Seq<(K::V, T)>, k: K::V, v: T)
    requires
        ascending::<K, T>(s),
    ensures
        ascending::<K, T>(put::<K, T>(s, k, v)),
{
    let p = slot::<K, T>(s, k, 0);
    lemma_slot::<K, T>(s, k, 0);
    let r = put::<K, T>(s, k, v);
    if holds::<K, T>(s, k) {
        assert forall|i: int, j: int| 0 <= i < j < r.len() implies K::key_lt(
            #[trigger] r[i].0,
            #[trigger] r[j].0,
        ) by {
            assert(r[i].0 == s[i].0 && r[j].0 == s[j].0);
        }
    } else {
        assert forall|i: int, j: int| 0 <= i < j < r.len() implies K::key_lt(
            #[trigger] r[i].0,
            #[trigger] r[j].0,
        ) by {
            if i < p && j < p {
                assert(K::key_lt(s[i].0, s[j].0));
            } else if i < p && j == p {
                assert(K::key_lt(s[i].0, k));
            } else if i < p {
                assert(K::key_lt(s[i].0, s[j - 1].0));
            } else {
                // `k` stands before the entry that was at its position, and before all after it.
                K::key_lt_total(s[p].0, k);
                assert(K::key_lt(k, s[p].0));
                if i == p {
                    if j - 1 > p {
                        assert(K::key_lt(s[p].0, s[j - 1].0));
                        K::key_lt_transitive(k, s[p].0, s[j - 1].0);
                    }
                } else {
                    assert(K::key_lt(s[i - 1].0, s[j - 1].0));
                }
            }
        }
    }
}

/// What was put at a key is read there.
pub proof fn lemma_put_lookup_same<K: Key, T>(s: Seq<(K::V, T)>, k: K::V, v: T)
    ensures
        lookup::<K, T>(put::<K, T>(s, k, v), k) == Some(v),
{
    let p = slot::<K, T>(s, k, 0);
    let r = put::<K, T>(s, k, v);
    lemma_slot::<K, T>(s, k, 0);
    K::key_lt_irreflexive(k);
    assert forall|j: int| 0 <= j < p implies K::key_lt(#[trigger] r[j].0, k) by {
        assert(r[j].0 == s[j].0);
    }
    lemma_slot_is::<K, T>(r, k, 0, p);
}

/// An ascending map holds a key if and only if the key stands somewhere in it.
pub proof fn lemma_holds<K: Key, T>(s: Seq<(K::V, T)>, k: K::V)
    requires
        ascending::<K, T>(s),
    ensures
        holds::<K, T>(s, k) <==> exists|i: int| 0 <= i < s.len() && #[trigger] s[i].0 == k,
{
    lemma_slot::<K, T>(s, k, 0);
    if exists|i: int| 0 <= i < s.len() && #[trigger] s[i].0 == k {
        let i = choose|i: int| 0 <= i < s.len() && #[trigger] s[i].0 == k;
        lemma_found::<K, T>(s, i);
    }
}

/// Putting at one key leaves every other key as it was.
pub proof fn lemma_put_lookup_other<K: Key, T>(s: Seq<(K::V, T)>, k: K::V, v: T, q: K::V)
    requires
        ascending::<K, T>(s),
        q != k,
    ensures
        lookup::<K, T>(put::<K, T>(s, k, v), q) == lookup::<K, T>(s, q),
{
    let r = put::<K, T>(s, k, v);
    let p = slot::<K, T>(s, k, 0);
    lemma_slot::<K, T>(s, k, 0);
    lemma_put_ascending::<K, T>(s, k, v);
    lemma_holds::<K, T>(s, q);
    lemma_holds::<K, T>(r, q);
    if holds::<K, T>(s, q) {
        let i = slot::<K, T>(s, q, 0);
        let j = if holds::<K, T>(s, k) || i < p {
            i
        } else {
            i + 1
        };
        assert(r[j] == s[i]);
        lemma_found::<K, T>(r, j);
    } else if holds::<K, T>(r, q) {
        let j = slot::<K, T>(r, q, 0);
        assert(r[j].0 == q);
        assert(j != p);
        let i = if holds::<K, T>(s, k) || j < p {
            j
        } else {
            j - 1
        };
        assert(s[i].0 == q);
    }
}

/// Removing keeps a map ascending.
pub proof fn lemma_without_ascending<K: Key, T>(s: Seq<(K::V, T)>, k: K::V)
    requires
        ascending::<K, T>(s),
    ensures
        ascending::<K, T>(without::<K, T>(s, k)),
{
    let p = slot::<K, T>(s, k, 0);
    let r = without::<K, T>(s, k);
    if holds::<K, T>(s, k) {
        assert forall|i: int, j: int| 0 <= i < j < r.len() implies K::key_lt(
            #[trigger] r[i].0,
            #[trigger] r[j].0,
        ) by {
            let a = if i < p {
                i
            } else {
                i + 1
            };
            let b = if j < p {
                j
            } else {
                j + 1
            };
            assert(r[i] == s[a] && r[j] == s[b]);
            assert(K::key_lt(s[a].0, s[b].0));
        }
    }
}

/// After a removal the key reads as absent, and every other key reads as before.
pub proof fn lemma_without_lookup<K: Key, T>(s: Seq<(K::V, T)>, k: K::V, q: K::V)
    requires
        ascending::<K, T>(s),
    ensures
        lookup::<K, T>(without::<K, T>(s, k), q) == if q == k {
            None
        } else {
            lookup::<K, T>(s, q)
        },
{
    let r = without::<K, T>(s, k);
    let p = slot::<K, T>(s, k, 0);
    lemma_slot::<K, T>(s, k, 0);
    lemma_without_ascending::<K, T>(s, k);
    lemma_holds::<K, T>(s, q);
    lemma_holds::<K, T>(r, q);
    if holds::<K, T>(s, k) {
        if q == k {
            if holds::<K, T>(r, k) {
                let j = slot::<K, T>(r, k, 0);
                let i = if j < p {
                    j
                } else {
                    j + 1
                };
                assert(r[j] == s[i]);
                lemma_found::<K, T>(s, i);
            }
        } else if holds::<K, T>(s, q) {
            let i = slot::<K, T>(s, q, 0);
            let j = if i < p {
                i
            } else {
                i - 1
            };
            assert(r[j] == s[i]);
            lemma_found::<K, T>(r, j);
        } else if holds::<K, T>(r, q) {
            let j = slot::<K, T>(r, q, 0);
            let i = if j < p {
                j
            } else {
                j + 1
            };
            assert(r[j] == s[i]);
            assert(s[i].0 == q);
        }
    }
}

/// Two ascending maps that read the same at every key are the same.
pub proof fn lemma_same_map<K: Key, T>(s: Seq<(K::V, T)>, t: Seq<(K::V, T)>)
    requires
        ascending::<K, T>(s),
        ascending::<K, T>(t),
        forall|k: K::V| #[trigger] lookup::<K, T>(s, k) == lookup::<K, T>(t, k),
    ensures
        s == t,
{
    lemma_same_entries::<K, T>(s, t, s.len() as int);
    lemma_same_entries::<K, T>(t, s, t.len() as int);
    assert(s =~= t);
}

proof fn lemma_same_entries<K: Key, T>(s: Seq<(K::V, T)>, t: Seq<(K::V, T)>, n: int)
    requires
        ascending::<K, T>(s),
        ascending::<K, T>(t),
        forall|k: K::V| #[trigger] lookup::<K, T>(s, k) == lookup::<K, T>(t, k),
        0 <= n <= s.len(),
    ensures
        n <= t.len(),
        forall|i: int| 0 <= i < n ==> #[trigger] s[i] == t[i],
    decreases n,
{
    if n > 0 {
        lemma_same_entries::<K, T>(s, t, n - 1);
        let i = n - 1;
        let k = s[i].0;
        lemma_found::<K, T>(s, i);
        assert(lookup::<K, T>(t, k) == Some(s[i].1));
        lemma_holds::<K, T>(t, k);
        let p = slot::<K, T>(t, k, 0);
        K::key_lt_irreflexive(k);
        if p < i {
            assert(s[p] == t[p]);
            assert(K::key_lt(s[p].0, s[i].0));
        } else if p > i {
            let q = t[i].0;
            assert(K::key_lt(t[i].0, t[p].0));
            lemma_found::<K, T>(t, i);
            assert(lookup::<K, T>(s, q) == Some(t[i].1));
            lemma_holds::<K, T>(s, q);
            let j = slot::<K, T>(s, q, 0);
            if j < i {
                assert(s[j] == t[j]);
                assert(K::key_lt(t[j].0, t[i].0));
                K::key_lt_irreflexive(q);
            } else if j > i {
                assert(K::key_lt(s[i].0, s[j].0));
                K::key_lt_transitive(k, q, k);
            }
        }
    }
}

/// A map from `K` to `T`, its entries in ascending key order.
#[derive(Debug, PartialEq)]
pub struct OrdMap<K, T> {
    pub entries: Vec<(K, T)>,
}

impl<K: Key, T: View> View for OrdMap<K, T> {
    type V = Seq<(K::V, T::V)>;

    open spec fn view(&self) -> Seq<(K::V, T::V)> {
        Seq::new(self.entries@.len(), |i: int| (self.entries@[i].0@, self.entries@[i].1@))
    }
}

impl<K: Key, T: View> OrdMap<K, T> {
    /// A map with no entry.
    pub fn new() -> (r: Self)
        ensures
            r@ == Seq::<(K::V, T::V)>::empty(),
    {
        let r = OrdMap { entries: Vec::new() };
        assert(r@ =~= Seq::<(K::V, T::V)>::empty());
        r
    }

    /// The number of entries.
    pub fn len(&self) -> (r: usize)
        ensures
            r == self@.len(),
    {
        self.entries.len()
    }

    /// Whether the map has no entry.
    pub fn is_empty(&self) -> (r: bool)
        ensures
            r == (self@.len() == 0),
    {
        self.entries.len() == 0
    }

    fn slot_of(&self, k: &K) -> (r: usize)
        ensures
            r == slot::<K, T::V>(self@, k@, 0),
            r <= self.entries.len(),
    {
        let mut i: usize = 0;
        while i < self.entries.len() && self.entries[i].0.before(k)
            invariant
                i <= self.entries.len(),
                slot::<K, T::V>(self@, k@, 0) == slot::<K, T::V>(self@, k@, i as int),
            decreases self.entries.len() - i,
        {
            assert(self@[i as int].0 == self.entries@[i as int].0@);
            i = i + 1;
        }
        proof {
            if i < self.entries.len() {
                assert(self@[i as int].0 == self.entries@[i as int].0@);
            }
        }
        i
    }

    /// The value at `k`, if there is one.
    pub fn get(&self, k: &K) -> (r: Option<&T>)
        ensures
            match r {
                Some(t) => lookup::<K, T::V>(self@, k@) == Some(t@),
                None => lookup::<K, T::V>(self@, k@) is None,
            },
    {
        let p = self.slot_of(k);
        if p < self.entries.len() && self.entries[p].0.same(k) {
            assert(self@[p as int].0 == self.entries@[p as int].0@);
            Some(&self.entries[p].1)
        } else {
            proof {
                if p < self.entries.len() {
                    assert(self@[p as int].0 == self.entries@[p as int].0@);
                }
            }
            None
        }
    }

    /// Whether there is a value at `k`.
    pub fn contains_key(&self, k: &K) -> (r: bool)
        ensures
            r == holds::<K, T::V>(self@, k@),
    {
        match self.get(k) {
            Some(_) => true,
            None => false,
        }
    }

    /// Sets the value at `k` to `v`.
    pub fn insert(&mut self, k: K, v: T)
        ensures
            final(self)@ == put::<K, T::V>(old(self)@, k@, v@),
    {
        let ghost before = self@;
        let ghost kv = k@;
        let ghost vv = v@;
        let p = self.slot_of(&k);
        if p < self.entries.len() && self.entries[p].0.same(&k) {
            assert(before[p as int].0 == self.entries@[p as int].0@);
            self.entries.set(p, (k, v));
            assert(self@ =~= before.update(p as int, (kv, vv)));
        } else {
            proof {
                if p < self.entries.len() {
                    assert(before[p as int].0 == self.entries@[p as int].0@);
                }
            }
            self.entries.insert(p, (k, v));
            assert(self@ =~= before.insert(p as int, (kv, vv)));
        }
    }

    /// Removes the value at `k`, if there is one.
    pub fn remove(&mut self, k: &K)
        ensures
            final(self)@ == without::<K, T::V>(old(self)@, k@),
    {
        let ghost before = self@;
        let p = self.slot_of(k);
        if p < self.entries.len() && self.entries[p].0.same(k) {
            assert(before[p as int].0 == self.entries@[p as int].0@);
            let _ = self.entries.remove(p);
            assert(self@ =~= before.remove(p as int));
        } else {
            proof {
                if p < self.entries.len() {
                    assert(before[p as int].0 == self.entries@[p as int].0@);
                }
            }
        }
    }
}

impl<K: Key, T: Dup> Dup for OrdMap<K, T> {
    fn dup(&self) -> (r: Self) {
        let mut out: Vec<(K, T)> = Vec::new();
        let mut i: usize = 0;
        while i < self.entries.len()
            invariant
                i <= self.entries.len(),
                out.len() == i,
                forall|j: int|
                    0 <= j < i ==> (#[trigger] out@[j]).0@ == self.entries@[j].0@ && out@[j].1@
                        == self.entries@[j].1@,
            decreases self.entries.len() - i,
        {
            let k = self.entries[i].0.dup();
            let v = self.entries[i].1.dup();
            out.push((k, v));
            i = i + 1;
        }
        let r = OrdMap { entries: out };
        assert(r@ =~= self@);
        r
    }
}

} // verus!
