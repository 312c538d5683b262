//! Retrieval quality: how much of what is relevant to a query a retrieval finds.
//!
//! What is relevant to a query stands in the store, as edges
//! `(query) -> :relevant -> (record)`.
use vstd::prelude::*;

use crate::ir::{RecordId, Store};
#[allow(unused_imports)]
use crate::ir::{EdgeV, RidV, StoreV};
use crate::ordmap;
use crate::ordmap::{Dup, Key, OrdMap};
use crate::text;

verus! {

/// The name of the edges from a query to what is relevant to it.
pub const RELEVANT_EDGE: &'static str = "relevant";

/// A set of record ids: a map without values.
pub type IdSet = OrdMap<RecordId, ()>;

/// The edge says that its target is relevant to the query.
pub open spec fn says_relevant(e: EdgeV, query: RidV) -> bool {
    e.name == RELEVANT_EDGE@ && e.from == query
}

/// What the first `n` edges say is relevant to the query.
pub open spec fn relevant(edges: Seq<EdgeV>, query: RidV, n: int) -> Seq<(RidV, ())>
    decreases n,
{
    if n <= 0 {
        Seq::empty()
    } else if says_relevant(edges[n - 1], query) {
        ordmap::put::<RecordId, ()>(relevant(edges, query, n - 1), edges[n - 1].to, ())
    } else {
        relevant(edges, query, n - 1)
    }
}

/// The records that are relevant to the query: the targets of its `relevant` edges, whether they are
/// stored or not.
pub fn relevant_set(store: &Store, query: &RecordId) -> (r: IdSet)
    ensures
        r@ == relevant(store@.edges, query@, store@.edges.len() as int),
{
    let ghost es = store@.edges;
    let mut out: IdSet = OrdMap::new();
    let mut i: usize = 0;
    while i < store.edges.len()
        invariant
            i <= store.edges.len(),
            es == ordmap::views(store.edges@),
            out@ == relevant(es, query@, i as int),
        decreases store.edges.len() - i,
    {
        let e = &store.edges[i];
        assert(es[i as int] == e@);
        if text::text_same(e.name.as_str(), RELEVANT_EDGE) && e.from.same(query) {
            out.insert(e.to.dup(), ());
        }
        i = i + 1;
    }
    out
}

/// How many of the first `n` retrieved ids are relevant.
pub open spec fn hits(retrieved: Seq<RidV>, rel: Seq<(RidV, ())>, n: int) -> nat
    decreases n,
{
    if n <= 0 {
        0
    } else {
        hits(retrieved, rel, n - 1) + if ordmap::holds::<RecordId, ()>(rel, retrieved[n - 1]) {
            1nat
        } else {
            0
        }
    }
}

/// How many of the first `k` retrieved ids, or of all where they are fewer, are relevant.
pub open spec fn hits_at(retrieved: Seq<RidV>, rel: Seq<(RidV, ())>, k: usize) -> nat {
    hits(
        retrieved,
        rel,
        if k < retrieved.len() {
            k as int
        } else {
            retrieved.len() as int
        },
    )
}

/// A fraction, kept as its numerator and its denominator.
#[derive(Debug, PartialEq, Eq, Clone, Copy)]
pub struct Fraction {
    pub num: usize,
    pub den: usize,
}

fn count_hits(retrieved: &Vec<RecordId>, rel: &IdSet, k: usize) -> (r: usize)
    ensures
        r == hits_at(ordmap::views(retrieved@), rel@, k),
{
    let ghost ids = ordmap::views(retrieved@);
    let end: usize = if k < retrieved.len() {
        k
    } else {
        retrieved.len()
    };
    let mut n: usize = 0;
    let mut i: usize = 0;
    while i < end
        invariant
            n <= i <= end <= retrieved.len(),
            ids == ordmap::views(retrieved@),
            n == hits(ids, rel@, i as int),
        decreases end - i,
    {
        assert(ids[i as int] == retrieved@[i as int]@);
        if rel.contains_key(&retrieved[i]) {
            n = n + 1;
        }
        i = i + 1;
    }
    n
}

/// The recall among the first `k` retrieved ids: the hits of all that is relevant. It is 1 where
/// nothing is relevant, and otherwise 0 for `k = 0`.
pub fn recall_at_k(retrieved: &Vec<RecordId>, rel: &IdSet, k: usize) -> (r: Fraction)
    ensures
        (r.num, r.den) == (if rel@.len() == 0 {
            (1usize, 1usize)
        } else if k == 0 {
            (0usize, 1usize)
        } else {
            (hits_at(ordmap::views(retrieved@), rel@, k) as usize, rel@.len() as usize)
        }),
{
    if rel.is_empty() {
        Fraction { num: 1, den: 1 }
    } else if k == 0 {
        Fraction { num: 0, den: 1 }
    } else {
        Fraction { num: count_hits(retrieved, rel, k), den: rel.len() }
    }
}

/// The precision among the first `k` retrieved ids: the hits of `k`. It is 0 for `k = 0`.
pub fn precision_at_k(retrieved: &Vec<RecordId>, rel: &IdSet, k: usize) -> (r: Fraction)
    ensures
        (r.num, r.den) == (if k == 0 {
            (0usize, 1usize)
        } else {
            (hits_at(ordmap::views(retrieved@), rel@, k) as usize, k)
        }),
{
    if k == 0 {
        Fraction { num: 0, den: 1 }
    } else {
        Fraction { num: count_hits(retrieved, rel, k), den: k }
    }
}

// ---------------------------------------------------------------------------------------------
// Laws
// ---------------------------------------------------------------------------------------------
proof fn lemma_relevant(edges: Seq<EdgeV>, query: RidV, n: int, id: RidV)
    requires
        0 <= n <= edges.len(),
    ensures
        ordmap::ascending::<RecordId, ()>(relevant(edges, query, n)),
        ordmap::holds::<RecordId, ()>(relevant(edges, query, n), id) <==> exists|j: int|
            0 <= j < n && says_relevant(#[trigger] edges[j], query) && edges[j].to == id,
    decreases n,
{
    if n > 0 {
        lemma_relevant(edges, query, n - 1, id);
        let before = relevant(edges, query, n - 1);
        let e = edges[n - 1];
        if says_relevant(e, query) {
            ordmap::lemma_put_ascending::<RecordId, ()>(before, e.to, ());
            if e.to == id {
                ordmap::lemma_put_lookup_same::<RecordId, ()>(before, e.to, ());
            } else {
                ordmap::lemma_put_lookup_other::<RecordId, ()>(before, e.to, (), id);
            }
        }
    }
}

/// A record is relevant to a query exactly if an edge says so, and each stands in the set once, in
/// ascending order.
pub proof fn law_relevant_set_is_the_edge_targets(s: StoreV, query: RidV, id: RidV)
    ensures
        ({
            let set = relevant(s.edges, query, s.edges.len() as int);
            &&& ordmap::ascending::<RecordId, ()>(set)
            &&& ordmap::holds::<RecordId, ()>(set, id) <==> exists|j: int|
                0 <= j < s.edges.len() && says_relevant(#[trigger] s.edges[j], query)
                    && s.edges[j].to == id
        }),
{
    lemma_relevant(s.edges, query, s.edges.len() as int, id);
}

proof fn lemma_hits_bound(retrieved: Seq<RidV>, rel: Seq<(RidV, ())>, m: int, n: int)
    requires
        0 <= m <= n,
    ensures
        hits(retrieved, rel, m) <= hits(retrieved, rel, n) <= hits(retrieved, rel, m) + (n - m),
    decreases n - m,
{
    if m < n {
        lemma_hits_bound(retrieved, rel, m, n - 1);
    }
}

/// Precision lies between 0 and 1.
pub proof fn law_precision_is_at_most_one(retrieved: Seq<RidV>, rel: Seq<(RidV, ())>, k: usize)
    ensures
        hits_at(retrieved, rel, k) <= k,
{
    let n = if k < retrieved.len() {
        k as int
    } else {
        retrieved.len() as int
    };
    lemma_hits_bound(retrieved, rel, 0, n);
}

/// Looking at more of what was retrieved never finds less of what is relevant.
pub proof fn law_recall_grows_with_k(
    retrieved: Seq<RidV>,
    rel: Seq<(RidV, ())>,
    j: usize,
    k: usize,
)
    requires
        j <= k,
    ensures
        hits_at(retrieved, rel, j) <= hits_at(retrieved, rel, k),
{
    let n = if k < retrieved.len() {
        k as int
    } else {
        retrieved.len() as int
    };
    let m = if j < retrieved.len() {
        j as int
    } else {
        retrieved.len() as int
    };
    lemma_hits_bound(retrieved, rel, m, n);
}

/// The positions in `rel` of the first `n` retrieved ids that are relevant.
spec fn hit_slots(retrieved: Seq<RidV>, rel: Seq<(RidV, ())>, n: int) -> Set<int>
    decreases n,
{
    if n <= 0 {
        Set::empty()
    } else {
        let before = hit_slots(retrieved, rel, n - 1);
        if ordmap::holds::<RecordId, ()>(rel, retrieved[n - 1]) {
            before.insert(ordmap::slot::<RecordId, ()>(rel, retrieved[n - 1], 0))
        } else {
            before
        }
    }
}

proof fn lemma_hit_slots(retrieved: Seq<RidV>, rel: Seq<(RidV, ())>, n: int)
    requires
        0 <= n <= retrieved.len(),
        forall|i: int, j: int|
            0 <= i < j < retrieved.len() ==> (#[trigger] retrieved[i]) != (#[trigger] retrieved[j]),
    ensures
        hit_slots(retrieved, rel, n).finite(),
        hit_slots(retrieved, rel, n).len() == hits(retrieved, rel, n),
        forall|p: int| #[trigger]
            hit_slots(retrieved, rel, n).contains(p) ==> 0 <= p < rel.len() && exists|i: int|
                0 <= i < n && rel[p].0 == #[trigger] retrieved[i],
    decreases n,
{
    if n > 0 {
        lemma_hit_slots(retrieved, rel, n - 1);
        let before = hit_slots(retrieved, rel, n - 1);
        let id = retrieved[n - 1];
        if ordmap::holds::<RecordId, ()>(rel, id) {
            let p = ordmap::slot::<RecordId, ()>(rel, id, 0);
            if before.contains(p) {
                let i = choose|i: int| 0 <= i < n - 1 && rel[p].0 == #[trigger] retrieved[i];
                assert(retrieved[i] != retrieved[n - 1]);
            }
            assert forall|q: int| #[trigger] before.insert(p).contains(q) implies 0 <= q < rel.len()
                && exists|i: int| 0 <= i < n && rel[q].0 == #[trigger] retrieved[i] by {
                if q == p {
                    assert(rel[q].0 == retrieved[n - 1]);
                } else {
                    assert(before.contains(q));
                    let i = choose|i: int| 0 <= i < n - 1 && rel[q].0 == #[trigger] retrieved[i];
                    assert(rel[q].0 == retrieved[i]);
                }
            }
        }
    }
}

/// Recall lies between 0 and 1 where no id is retrieved twice.
pub proof fn law_recall_is_at_most_one(retrieved: Seq<RidV>, rel: Seq<(RidV, ())>, k: usize)
    requires
        forall|i: int, j: int|
            0 <= i < j < retrieved.len() ==> (#[trigger] retrieved[i]) != (#[trigger] retrieved[j]),
    ensures
        hits_at(retrieved, rel, k) <= rel.len(),
{
    let n = if k < retrieved.len() {
        k as int
    } else {
        retrieved.len() as int
    };
    lemma_hit_slots(retrieved, rel, n);
    let all = vstd::set_lib::set_int_range(0, rel.len() as int);
    vstd::set_lib::lemma_int_range(0, rel.len() as int);
    assert(hit_slots(retrieved, rel, n).subset_of(all));
    vstd::set_lib::lemma_len_subset(hit_slots(retrieved, rel, n), all);
}

/// The hits among the first `k` retrieved ids are those of them that are in the set, each as often as it
/// was retrieved.
pub proof fn law_hits_count_what_is_in_the_set(retrieved: Seq<RidV>, rel: Seq<(RidV, ())>, k: usize)
    ensures
        hits_at(retrieved, rel, k) == retrieved.take(
            if k < retrieved.len() {
                k as int
            } else {
                retrieved.len() as int
            },
        ).filter(|id: RidV| ordmap::lookup::<RecordId, ()>(rel, id) is Some).len(),
{
    let n = if k < retrieved.len() {
        k as int
    } else {
        retrieved.len() as int
    };
    lemma_hits_filtered(retrieved, rel, n);
}

proof fn lemma_hits_filtered(retrieved: Seq<RidV>, rel: Seq<(RidV, ())>, n: int)
    requires
        0 <= n <= retrieved.len(),
    ensures
        hits(retrieved, rel, n) == retrieved.take(n).filter(
            |id: RidV| ordmap::lookup::<RecordId, ()>(rel, id) is Some,
        ).len(),
    decreases n,
{
    reveal(Seq::filter);
    if n > 0 {
        lemma_hits_filtered(retrieved, rel, n - 1);
        assert(retrieved.take(n).drop_last() =~= retrieved.take(n - 1));
        assert(retrieved.take(n).last() == retrieved[n - 1]);
    } else {
        assert(retrieved.take(0) =~= Seq::<RidV>::empty());
    }
}

/// A record is relevant to a query exactly if an edge named `relevant` leads to it from the query.
pub proof fn law_relevant_edges_lead_from_the_query(s: StoreV, query: RidV, id: RidV)
    ensures
        ordmap::lookup::<RecordId, ()>(relevant(s.edges, query, s.edges.len() as int), id) is Some
            <==> exists|j: int|
            0 <= j < s.edges.len() && (#[trigger] s.edges[j]).name == "relevant"@ && s.edges[j].from
                == query && s.edges[j].to == id,
{
    lemma_relevant(s.edges, query, s.edges.len() as int, id);
}

} // verus!
