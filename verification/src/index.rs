//! Indexes over embeddings: the nearest neighbours of a query vector.
//!
//! [`BruteForceVectorIndex`] is exact: it scores every vector. [`HnswVectorIndex`] keeps account of an
//! approximate index whose graph only ever grows: which of its entries is the current one of an id.
use vstd::prelude::*;

use crate::ir;
use crate::ir::{Record, RecordId};
#[allow(unused_imports)]
use crate::ir::{RecV, RidV, SelV};
use crate::number;
use crate::ordmap;
use crate::ordmap::{Dup, Key, OrdMap};
use crate::score;
use crate::score::ScoreTask;
#[allow(unused_imports)]
use crate::score::{Scoring, TaskV};
use crate::select;
use crate::select::ScoredRecord;
#[allow(unused_imports)]
use crate::select::RowV;

verus! {

// ---------------------------------------------------------------------------------------------
// Ranking
// ---------------------------------------------------------------------------------------------
/// An id with its score, as a mathematical value.
pub type HitV = (RidV, u32);

/// The ids and scores of `s`.
pub open spec fn hits_of(s: Seq<(RecordId, u32)>) -> Seq<HitV> {
    Seq::new(s.len(), |i: int| (s[i].0@, s[i].1))
}

/// A hit as a row: a record that has nothing but its id.
pub open spec fn hit_row(h: HitV) -> RowV {
    RowV {
        record: RecV { id: h.0, body: Seq::empty(), embedding: None, created_at: 0 },
        score: h.1,
    }
}

/// The hits as rows.
pub open spec fn hit_rows(hits: Seq<HitV>) -> Seq<RowV> {
    Seq::new(hits.len(), |i: int| hit_row(hits[i]))
}

/// The rows as hits.
pub open spec fn row_hits(rows: Seq<RowV>) -> Seq<HitV> {
    Seq::new(rows.len(), |i: int| (rows[i].record.id, rows[i].score))
}

/// The first `k` hits by descending score, and by ascending id where scores are equal.
pub open spec fn ranked(hits: Seq<HitV>, k: usize) -> Seq<HitV> {
    row_hits(select::at_most(select::in_order(false, hit_rows(hits)), k))
}

fn push_hit(rows: &mut Vec<ScoredRecord>, id: RecordId, score: u32)
    ensures
        ordmap::views(final(rows)@) == ordmap::views(old(rows)@).push(hit_row((id@, score))),
{
    let ghost before = ordmap::views(rows@);
    let body = OrdMap::new();
    assert(body@ =~= Seq::empty());
    let row = ScoredRecord { record: Record { id, body, embedding: None, created_at: 0 }, score };
    let ghost rv = row@;
    rows.push(row);
    assert(ordmap::views(rows@) =~= before.push(rv));
}

fn rank_hits(rows: Vec<ScoredRecord>, k: usize) -> (r: Vec<(RecordId, u32)>)
    ensures
        hits_of(r@) == row_hits(
            select::at_most(select::in_order(false, ordmap::views(rows@)), k),
        ),
{
    let sorted = select::sort_rows(false, rows);
    let kept = select::cut(sorted, k);
    let mut out: Vec<(RecordId, u32)> = Vec::new();
    let mut i: usize = 0;
    while i < kept.len()
        invariant
            i <= kept.len(),
            out.len() == i,
            forall|j: int|
                0 <= j < i ==> (#[trigger] out@[j]).0@ == kept@[j]@.record.id && out@[j].1
                    == kept@[j]@.score,
        decreases kept.len() - i,
    {
        out.push((kept[i].record.id.dup(), kept[i].score));
        i = i + 1;
    }
    assert(hits_of(out@) =~= row_hits(ordmap::views(kept@)));
    out
}

// ---------------------------------------------------------------------------------------------
// Exact search
// ---------------------------------------------------------------------------------------------
/// Every vector with its similarity to the query.
pub open spec fn scored(g: Scoring, vectors: Seq<(RidV, Seq<u32>)>, query: Seq<u32>) -> Seq<HitV> {
    Seq::new(
        vectors.len(),
        |i: int| (vectors[i].0, g(TaskV::Similarity { embedding: vectors[i].1, query })),
    )
}

/// The `k` nearest neighbours of the query.
pub open spec fn nearest(
    g: Scoring,
    vectors: Seq<(RidV, Seq<u32>)>,
    query: Seq<u32>,
    k: usize,
) -> Seq<HitV> {
    ranked(scored(g, vectors, query), k)
}

/// An exact index over embeddings, at most one for each id.
pub trait VectorIndex: Sized {
    /// The indexed vectors, in ascending id order.
    spec fn vectors(&self) -> Seq<(RidV, Seq<u32>)>;

    /// Indexes `v` under `id`, in place of what stood there.
    fn upsert(&mut self, id: RecordId, v: Vec<u32>)
        ensures
            final(self).vectors() == ordmap::put::<RecordId, Seq<u32>>(
                old(self).vectors(),
                id@,
                v@,
            ),
    ;

    /// Drops the vector of `id`, if there is one.
    fn remove(&mut self, id: &RecordId)
        ensures
            final(self).vectors() == ordmap::without::<RecordId, Seq<u32>>(
                old(self).vectors(),
                id@,
            ),
    ;

    /// The `k` nearest neighbours of the query, with their similarities: the most similar first, and
    /// by ascending id where similarities are equal. `f` computes the similarities.
    fn search<F: Fn(ScoreTask) -> u32>(&self, query: &Vec<u32>, k: usize, f: &F) -> (r: Vec<
        (RecordId, u32),
    >)
        requires
            score::takes_tasks(*f),
        ensures
            forall|g: Scoring| #[trigger]
                score::scores_by(*f, g) ==> hits_of(r@) == nearest(
                    g,
                    self.vectors(),
                    query@,
                    k,
                ),
    ;

    /// How many vectors are indexed.
    fn len(&self) -> (r: usize)
        ensures
            r == self.vectors().len(),
    ;

    /// Whether no vector is indexed.
    fn is_empty(&self) -> (r: bool)
        ensures
            r == (self.vectors().len() == 0),
    ;
}

/// The exact index that scores every vector.
#[derive(Debug)]
pub struct BruteForceVectorIndex {
    vectors: OrdMap<RecordId, Vec<u32>>,
}

impl Default for BruteForceVectorIndex {
    /// The empty index.
    fn default() -> (r: Self)
        ensures
            r.vectors() == Seq::<(RidV, Seq<u32>)>::empty(),
    {
        BruteForceVectorIndex { vectors: OrdMap::new() }
    }
}

impl VectorIndex for BruteForceVectorIndex {
    closed spec fn vectors(&self) -> Seq<(RidV, Seq<u32>)> {
        self.vectors@
    }

    fn upsert(&mut self, id: RecordId, v: Vec<u32>) {
        self.vectors.insert(id, v);
    }

    fn remove(&mut self, id: &RecordId) {
        self.vectors.remove(id);
    }

    fn search<F: Fn(ScoreTask) -> u32>(&self, query: &Vec<u32>, k: usize, f: &F) -> (r: Vec<
        (RecordId, u32),
    >) {
        let ghost vs = self.vectors@;
        let entries = &self.vectors.entries;
        let mut rows: Vec<ScoredRecord> = Vec::new();
        let mut i: usize = 0;
        assert(ordmap::views(rows@) =~= Seq::<RowV>::empty());
        while i < entries.len()
            invariant
                score::takes_tasks(*f),
                i <= entries.len(),
                entries.len() == vs.len(),
                forall|j: int|
                    0 <= j < vs.len() ==> (#[trigger] vs[j]) == (
                        entries@[j].0@,
                        entries@[j].1@,
                    ),
                ordmap::views(rows@).len() == i,
                forall|g: Scoring| #[trigger]
                    score::scores_by(*f, g) ==> ordmap::views(rows@) == hit_rows(
                        scored(g, vs, query@),
                    ).take(i as int),
            decreases entries.len() - i,
        {
            let ghost before = ordmap::views(rows@);
            assert(vs[i as int] == (entries@[i as int].0@, entries@[i as int].1@));
            let score = f(
                ScoreTask::Similarity {
                    embedding: ir::singles_dup(&entries[i].1),
                    query: ir::singles_dup(query),
                },
            );
            push_hit(&mut rows, entries[i].0.dup(), score);
            proof {
                assert forall|g: Scoring| #[trigger] score::scores_by(*f, g) implies ordmap::views(
                    rows@,
                ) == hit_rows(scored(g, vs, query@)).take(i + 1) by {
                    let all = hit_rows(scored(g, vs, query@));
                    assert(all.take(i + 1) =~= all.take(i as int).push(all[i as int]));
                }
            }
            i = i + 1;
        }
        proof {
            assert forall|g: Scoring| #[trigger] score::scores_by(*f, g) implies ordmap::views(rows@)
                == hit_rows(scored(g, vs, query@)) by {
                let all = hit_rows(scored(g, vs, query@));
                assert(all.take(i as int) =~= all);
            }
        }
        rank_hits(rows, k)
    }

    fn len(&self) -> (r: usize) {
        self.vectors.len()
    }

    fn is_empty(&self) -> (r: bool) {
        self.vectors.is_empty()
    }
}

// ---------------------------------------------------------------------------------------------
// Approximate search
// ---------------------------------------------------------------------------------------------
/// One entry that the graph found: the id that it was inserted under, in writing, which entry it is,
/// and its similarity to the query.
#[derive(Debug, PartialEq, Eq)]
pub struct GraphHit {
    pub payload: String,
    pub entry: usize,
    pub score: u32,
}

#[verifier::ext_equal]
pub struct GraphHitV {
    pub payload: Seq<char>,
    pub entry: usize,
    pub score: u32,
}

impl View for GraphHit {
    type V = GraphHitV;

    open spec fn view(&self) -> GraphHitV {
        GraphHitV { payload: self.payload@, entry: self.entry, score: self.score }
    }
}

/// The account of an approximate index. Its graph has no deletion: a vector that was replaced or
/// removed leaves a stale entry behind. An entry is current if it is the last one of its id and the
/// id was not removed since.
#[derive(Debug)]
pub struct HnswVectorIndex {
    live: OrdMap<RecordId, usize>,
    ef: usize,
}

/// The hit is the current entry of its id.
pub open spec fn is_current(live: Seq<(RidV, usize)>, h: GraphHitV) -> bool {
    ir::parse_rid(h.payload) matches Some(id) && ordmap::lookup::<RecordId, usize>(live, id)
        == Some(h.entry)
}

/// One of the hits is of `id`.
pub open spec fn lists(hits: Seq<HitV>, id: RidV) -> bool {
    exists|i: int| 0 <= i < hits.len() && (#[trigger] hits[i]).0 == id
}

/// The current ones among the first `n` hits, each id once.
pub open spec fn current(live: Seq<(RidV, usize)>, hits: Seq<GraphHitV>, n: int) -> Seq<HitV>
    decreases n,
{
    if n <= 0 {
        Seq::empty()
    } else {
        let before = current(live, hits, n - 1);
        if is_current(live, hits[n - 1]) && !lists(before, ir::parse_rid(hits[n - 1].payload)->0) {
            before.push((ir::parse_rid(hits[n - 1].payload)->0, hits[n - 1].score))
        } else {
            before
        }
    }
}

fn is_listed(rows: &Vec<ScoredRecord>, id: &RecordId) -> (r: bool)
    ensures
        r == lists(row_hits(ordmap::views(rows@)), id@),
{
    let ghost hits = row_hits(ordmap::views(rows@));
    let mut i: usize = 0;
    while i < rows.len()
        invariant
            i <= rows.len(),
            hits == row_hits(ordmap::views(rows@)),
            forall|j: int| 0 <= j < i ==> (#[trigger] hits[j]).0 != id@,
        decreases rows.len() - i,
    {
        assert(hits[i as int].0 == rows@[i as int]@.record.id);
        if rows[i].record.id.same(id) {
            return true;
        }
        i = i + 1;
    }
    false
}

impl HnswVectorIndex {
    /// The current entries, by id.
    pub closed spec fn entries(&self) -> Seq<(RidV, usize)> {
        self.live@
    }

    /// The beam width of a search.
    pub closed spec fn beam(&self) -> usize {
        self.ef
    }

    /// An empty index whose searches have the beam width `ef`, at least 1.
    pub fn new(ef: usize) -> (r: Self)
        ensures
            r.entries() == Seq::<(RidV, usize)>::empty(),
            r.beam() == (if ef == 0 {
                1
            } else {
                ef
            }),
    {
        HnswVectorIndex {
            live: OrdMap::new(),
            ef: if ef == 0 {
                1
            } else {
                ef
            },
        }
    }

    /// The beam width of a search.
    pub fn ef(&self) -> (r: usize)
        ensures
            r == self.beam(),
    {
        self.ef
    }

    /// Takes note that the vector of `id` is now entry `entry` of the graph.
    pub fn upsert(&mut self, id: RecordId, entry: usize)
        ensures
            final(self).entries() == ordmap::put::<RecordId, usize>(
                old(self).entries(),
                id@,
                entry,
            ),
            final(self).beam() == old(self).beam(),
    {
        self.live.insert(id, entry);
    }

    /// Drops the vector of `id`, if there is one; its entry becomes stale.
    pub fn remove(&mut self, id: &RecordId)
        ensures
            final(self).entries() == ordmap::without::<RecordId, usize>(old(self).entries(), id@),
            final(self).beam() == old(self).beam(),
    {
        self.live.remove(id);
    }

    /// How many vectors are indexed.
    pub fn len(&self) -> (r: usize)
        ensures
            r == self.entries().len(),
    {
        self.live.len()
    }

    /// Whether no vector is indexed.
    pub fn is_empty(&self) -> (r: bool)
        ensures
            r == (self.entries().len() == 0),
    {
        self.live.is_empty()
    }

    /// Whether a search for `k` neighbours has to ask the graph.
    pub fn asks_graph(&self, k: usize) -> (r: bool)
        ensures
            r == (k > 0 && self.entries().len() > 0),
    {
        k > 0 && !self.live.is_empty()
    }

    /// The result of a search for `k` neighbours in which the graph found `hits`: those of current
    /// entries, each id once, the most similar first, and by ascending id where similarities are
    /// equal.
    pub fn accept(&self, hits: &Vec<GraphHit>, k: usize) -> (r: Vec<(RecordId, u32)>)
        ensures
            hits_of(r@) == ranked(
                current(self.entries(), ordmap::views(hits@), hits@.len() as int),
                k,
            ),
    {
        let ghost live = self.live@;
        let ghost hv = ordmap::views(hits@);
        let mut rows: Vec<ScoredRecord> = Vec::new();
        let mut i: usize = 0;
        assert(ordmap::views(rows@) =~= hit_rows(current(live, hv, 0)));
        while i < hits.len()
            invariant
                i <= hits.len(),
                live == self.live@,
                hv == ordmap::views(hits@),
                ordmap::views(rows@) == hit_rows(current(live, hv, i as int)),
            decreases hits.len() - i,
        {
            assert(hv[i as int] == hits@[i as int]@);
            let ghost before = current(live, hv, i as int);
            assert(row_hits(ordmap::views(rows@)) =~= before);
            if let Some(id) = RecordId::parse(hits[i].payload.as_str()) {
                if let Some(entry) = self.live.get(&id) {
                    if *entry == hits[i].entry && !is_listed(&rows, &id) {
                        let ghost h = (id@, hits@[i as int].score);
                        push_hit(&mut rows, id, hits[i].score);
                        assert(hit_rows(before.push(h)) =~= hit_rows(before).push(hit_row(h)));
                    }
                }
            }
            i = i + 1;
        }
        rank_hits(rows, k)
    }
}

// ---------------------------------------------------------------------------------------------
// Laws
// ---------------------------------------------------------------------------------------------
/// `a` has the higher score, or not the lower one and the smaller id.
pub open spec fn hit_before(a: HitV, b: HitV) -> bool {
    number::single_gt(a.1, b.1) || (!number::single_gt(b.1, a.1) && ir::rid_lt(a.0, b.0))
}

/// The vector of an id is the last one indexed under it; other ids keep theirs.
pub proof fn law_upsert_then_lookup(
    vectors: Seq<(RidV, Seq<u32>)>,
    id: RidV,
    v: Seq<u32>,
    other: RidV,
)
    requires
        ordmap::ascending::<RecordId, Seq<u32>>(vectors),
    ensures
        ({
            let t = ordmap::put::<RecordId, Seq<u32>>(vectors, id, v);
            &&& ordmap::ascending::<RecordId, Seq<u32>>(t)
            &&& ordmap::lookup::<RecordId, Seq<u32>>(t, id) == Some(v)
            &&& other != id ==> ordmap::lookup::<RecordId, Seq<u32>>(t, other)
                == ordmap::lookup::<RecordId, Seq<u32>>(vectors, other)
        }),
{
    ordmap::lemma_put_ascending::<RecordId, Seq<u32>>(vectors, id, v);
    ordmap::lemma_put_lookup_same::<RecordId, Seq<u32>>(vectors, id, v);
    if other != id {
        ordmap::lemma_put_lookup_other::<RecordId, Seq<u32>>(vectors, id, v, other);
    }
}

/// An exact search is exact: it gives as many neighbours as asked for, or all there are; each is
/// indexed, with its similarity; they are in order; and each comes before each vector left out.
pub proof fn law_search_finds_the_nearest(
    g: Scoring,
    vectors: Seq<(RidV, Seq<u32>)>,
    query: Seq<u32>,
    k: usize,
)
    requires
        ordmap::ascending::<RecordId, Seq<u32>>(vectors),
        forall|i: int|
            0 <= i < vectors.len() ==> !number::single_is_nan(
                (#[trigger] scored(g, vectors, query)[i]).1,
            ),
    ensures
        ({
            let all = scored(g, vectors, query);
            let found = nearest(g, vectors, query, k);
            &&& found.len() == (if k < vectors.len() {
                k as nat
            } else {
                vectors.len()
            })
            &&& forall|i: int| 0 <= i < found.len() ==> all.contains(#[trigger] found[i])
            &&& forall|i: int, j: int|
                0 <= i < j < found.len() ==> hit_before(#[trigger] found[i], #[trigger] found[j])
            &&& forall|i: int, j: int|
                0 <= i < found.len() && 0 <= j < all.len() && !found.contains(#[trigger] all[j])
                    ==> hit_before(#[trigger] found[i], all[j])
        }),
{
    let all = scored(g, vectors, query);
    let rows = hit_rows(all);
    let sorted = select::in_order(false, rows);
    let found = nearest(g, vectors, query, k);
    assert forall|i: int, j: int| 0 <= i < j < rows.len() implies (#[trigger] rows[i]).record.id
        != (#[trigger] rows[j]).record.id by {
        assert(<RecordId as ordmap::Key>::key_lt(vectors[i].0, vectors[j].0));
        <RecordId as ordmap::Key>::key_lt_irreflexive(vectors[i].0);
    }
    assert forall|i: int| 0 <= i < rows.len() implies !number::single_is_nan(
        (#[trigger] rows[i]).score,
    ) by {
        assert(rows[i].score == all[i].1);
    }
    select::law_rows_are_totally_ordered(false, rows);
    select::law_order_is_a_permutation(false, rows);
    lemma_same_rows(sorted, rows);
    assert forall|i: int| 0 <= i < found.len() implies all.contains(#[trigger] found[i]) by {
        assert(rows.contains(sorted[i]));
        let j = choose|j: int| 0 <= j < rows.len() && rows[j] == sorted[i];
        assert(found[i] == all[j]);
    }
    assert forall|i: int, j: int| 0 <= i < j < found.len() implies hit_before(
        #[trigger] found[i],
        #[trigger] found[j],
    ) by {
        assert(select::row_before(false, sorted[i], sorted[j]));
    }
    assert forall|i: int, j: int|
        0 <= i < found.len() && 0 <= j < all.len() && !found.contains(
            #[trigger] all[j],
        ) implies hit_before(#[trigger] found[i], all[j]) by {
        assert(rows[j] == hit_row(all[j]));
        assert(sorted.contains(rows[j]));
        let m = choose|m: int| 0 <= m < sorted.len() && sorted[m] == rows[j];
        if m < found.len() {
            assert(found[m] == all[j]);
        }
        assert(select::row_before(false, sorted[i], sorted[m]));
    }
}

proof fn lemma_same_rows(a: Seq<RowV>, b: Seq<RowV>)
    requires
        a.to_multiset() == b.to_multiset(),
    ensures
        forall|i: int| 0 <= i < a.len() ==> b.contains(#[trigger] a[i]),
        forall|i: int| 0 <= i < b.len() ==> a.contains(#[trigger] b[i]),
{
    broadcast use vstd::seq_lib::group_to_multiset_ensures;

    assert forall|i: int| 0 <= i < a.len() implies b.contains(#[trigger] a[i]) by {
        assert(a.to_multiset().count(a[i]) > 0);
    }
    assert forall|i: int| 0 <= i < b.len() implies a.contains(#[trigger] b[i]) by {
        assert(b.to_multiset().count(b[i]) > 0);
    }
}

proof fn lemma_placed_hits(s: Seq<RowV>, t: Seq<RowV>, a: RowV, b: RowV)
    requires
        row_hits(s) == row_hits(t),
        a.record.id == b.record.id,
        a.score == b.score,
    ensures
        row_hits(select::placed(false, s, a)) == row_hits(select::placed(false, t, b)),
    decreases s.len(),
{
    assert(s.len() == row_hits(s).len() && t.len() == row_hits(t).len());
    if s.len() > 0 {
        assert(row_hits(s).last() == row_hits(t).last());
        assert(row_hits(s.drop_last()) =~= row_hits(s).drop_last());
        assert(row_hits(t.drop_last()) =~= row_hits(t).drop_last());
        if select::row_before(false, a, s.last()) {
            lemma_placed_hits(s.drop_last(), t.drop_last(), a, b);
            let p = select::placed(false, s.drop_last(), a);
            let q = select::placed(false, t.drop_last(), b);
            assert(p.len() == row_hits(p).len() && q.len() == row_hits(q).len());
            assert forall|i: int| 0 <= i < p.len() implies p[i].record.id == q[i].record.id
                && p[i].score == q[i].score by {
                assert(row_hits(p)[i] == row_hits(q)[i]);
            }
            assert(row_hits(p.push(s.last())) =~= row_hits(q.push(t.last())));
        } else {
            assert(row_hits(s.push(a)) =~= row_hits(s).push((a.record.id, a.score)));
            assert(row_hits(t.push(b)) =~= row_hits(t).push((b.record.id, b.score)));
        }
    } else {
        assert(row_hits(s.push(a)) =~= row_hits(t.push(b)));
    }
}

proof fn lemma_sorted_hits(s: Seq<RowV>, t: Seq<RowV>, n: int)
    requires
        row_hits(s) == row_hits(t),
        0 <= n <= s.len(),
    ensures
        row_hits(select::sorted(false, s, n)) == row_hits(select::sorted(false, t, n)),
    decreases n,
{
    assert(s.len() == row_hits(s).len() && t.len() == row_hits(t).len());
    if n > 0 {
        lemma_sorted_hits(s, t, n - 1);
        assert(row_hits(s)[n - 1] == row_hits(t)[n - 1]);
        lemma_placed_hits(
            select::sorted(false, s, n - 1),
            select::sorted(false, t, n - 1),
            s[n - 1],
            t[n - 1],
        );
    }
}

/// The ids and embeddings of records that all have one.
pub open spec fn embedded(recs: Seq<RecV>) -> Seq<(RidV, Seq<u32>)> {
    Seq::new(recs.len(), |i: int| (recs[i].id, recs[i].embedding->0))
}

/// A nearest-neighbour selection finds what the exact index over its candidates finds, where all
/// candidates have an embedding.
pub proof fn law_selection_agrees_with_index(g: Scoring, sel: SelV, recs: Seq<RecV>)
    requires
        sel.knn is Some,
        forall|i: int| 0 <= i < recs.len() ==> (#[trigger] recs[i]).embedding is Some,
    ensures
        row_hits(select::nearest_rows(g, sel, recs)) == nearest(
            g,
            embedded(recs),
            sel.knn->0.query,
            sel.knn->0.k,
        ),
{
    let k = sel.knn->0.k;
    let query = sel.knn->0.query;
    let s = select::rescored(
        select::unscored(recs),
        select::similarities(g, sel, select::unscored(recs)),
    );
    let t = hit_rows(scored(g, embedded(recs), query));
    assert forall|i: int| 0 <= i < recs.len() implies (#[trigger] row_hits(s)[i]) == row_hits(
        t,
    )[i] by {
        assert(recs[i].embedding is Some);
        assert(s[i].record == recs[i]);
        assert(s[i].score == select::similarity(g, sel, recs[i]));
    }
    assert(row_hits(s) =~= row_hits(t));
    lemma_sorted_hits(s, t, s.len() as int);
    let a = select::in_order(false, s);
    let b = select::in_order(false, t);
    assert(a.len() == row_hits(a).len() && b.len() == row_hits(b).len());
    assert forall|i: int| 0 <= i < a.len() implies (#[trigger] a[i]).record.id == b[i].record.id
        && a[i].score == b[i].score by {
        assert(row_hits(a)[i] == row_hits(b)[i]);
    }
    assert(row_hits(select::at_most(a, k)) =~= row_hits(select::at_most(b, k)));
}

/// One of the hits is the current entry of the id of `h`, with its score.
pub open spec fn comes_from(live: Seq<(RidV, usize)>, hits: Seq<GraphHitV>, h: HitV) -> bool {
    exists|j: int|
        0 <= j < hits.len() && #[trigger] is_current(live, hits[j]) && h == (
            ir::parse_rid(hits[j].payload)->0,
            hits[j].score,
        )
}

/// Whatever the graph finds, an approximate search gives no more than `k` hits, and each is the
/// current entry of its id: a replaced or removed vector is never found.
pub proof fn law_stale_entries_are_not_found(
    live: Seq<(RidV, usize)>,
    hits: Seq<GraphHitV>,
    k: usize,
)
    ensures
        ({
            let found = ranked(current(live, hits, hits.len() as int), k);
            &&& found.len() <= k
            &&& forall|i: int|
                0 <= i < found.len() ==> comes_from(live, hits, #[trigger] found[i])
        }),
{
    let kept = current(live, hits, hits.len() as int);
    let rows = hit_rows(kept);
    let sorted = select::in_order(false, rows);
    let found = ranked(kept, k);
    select::law_order_is_a_permutation(false, rows);
    lemma_same_rows(sorted, rows);
    lemma_current(live, hits, hits.len() as int);
    assert forall|i: int| 0 <= i < found.len() implies comes_from(
        live,
        hits,
        #[trigger] found[i],
    ) by {
        assert(rows.contains(sorted[i]));
        let m = choose|m: int| 0 <= m < rows.len() && rows[m] == sorted[i];
        assert(kept[m] == found[i]);
    }
}

proof fn lemma_current(live: Seq<(RidV, usize)>, hits: Seq<GraphHitV>, n: int)
    requires
        0 <= n <= hits.len(),
    ensures
        forall|i: int|
            0 <= i < current(live, hits, n).len() ==> comes_from(
                live,
                hits,
                #[trigger] current(live, hits, n)[i],
            ),
    decreases n,
{
    if n > 0 {
        lemma_current(live, hits, n - 1);
        let before = current(live, hits, n - 1);
        let after = current(live, hits, n);
        assert forall|i: int| 0 <= i < after.len() implies comes_from(
            live,
            hits,
            #[trigger] after[i],
        ) by {
            if i < before.len() {
                assert(after[i] == before[i]);
            } else {
                assert(is_current(live, hits[n - 1]));
            }
        }
    }
}

/// Whatever the graph finds, an approximate search gives each id at most once.
pub proof fn law_id_is_found_once(live: Seq<(RidV, usize)>, hits: Seq<GraphHitV>, k: usize)
    ensures
        ({
            let found = ranked(current(live, hits, hits.len() as int), k);
            forall|i: int, j: int|
                0 <= i < j < found.len() ==> (#[trigger] found[i]).0 != (#[trigger] found[j]).0
        }),
{
    let kept = current(live, hits, hits.len() as int);
    let rows = hit_rows(kept);
    let sorted = select::in_order(false, rows);
    let found = ranked(kept, k);
    select::law_order_is_a_permutation(false, rows);
    lemma_same_rows(sorted, rows);
    lemma_current_ids(live, hits, hits.len() as int);
    assert forall|i: int, j: int| 0 <= i < j < rows.len() implies (#[trigger] rows[i]).record.id
        != (#[trigger] rows[j]).record.id by {
        assert(kept[i].0 != kept[j].0);
    }
    assert(rows.no_duplicates()) by {
        assert forall|i: int, j: int|
            0 <= i < rows.len() && 0 <= j < rows.len() && i != j implies rows[i] != rows[j] by {
            if i < j {
                assert(rows[i].record.id != rows[j].record.id);
            } else {
                assert(rows[j].record.id != rows[i].record.id);
            }
        }
    }
    rows.lemma_multiset_has_no_duplicates();
    sorted.lemma_multiset_has_no_duplicates_conv();
    assert forall|i: int, j: int| 0 <= i < j < found.len() implies (#[trigger] found[i]).0 != (
    #[trigger] found[j]).0 by {
        if found[i].0 == found[j].0 {
            assert(rows.contains(sorted[i]) && rows.contains(sorted[j]));
            let a = choose|a: int| 0 <= a < rows.len() && rows[a] == sorted[i];
            let b = choose|b: int| 0 <= b < rows.len() && rows[b] == sorted[j];
            if a < b {
                assert(rows[a].record.id != rows[b].record.id);
            } else if b < a {
                assert(rows[b].record.id != rows[a].record.id);
            } else {
                assert(sorted[i] == sorted[j]);
            }
        }
    }
}

proof fn lemma_current_ids(live: Seq<(RidV, usize)>, hits: Seq<GraphHitV>, n: int)
    requires
        0 <= n <= hits.len(),
    ensures
        forall|i: int, j: int|
            0 <= i < j < current(live, hits, n).len() ==> (#[trigger] current(live, hits, n)[i]).0
                != (#[trigger] current(live, hits, n)[j]).0,
    decreases n,
{
    if n > 0 {
        lemma_current_ids(live, hits, n - 1);
        let before = current(live, hits, n - 1);
        let kept = current(live, hits, n);
        assert forall|i: int, j: int| 0 <= i < j < kept.len() implies (#[trigger] kept[i]).0 != (
        #[trigger] kept[j]).0 by {
            assert(kept[i] == before[i]);
            if j < before.len() {
                assert(kept[j] == before[j]);
            }
        }
    }
}

/// A replaced vector is found as the new one: behind an upsert of `id` as `entry`, whatever the
/// graph finds, a hit with that id has the score of that entry.
pub proof fn law_replaced_vector_is_found_as_new(
    live: Seq<(RidV, usize)>,
    id: RidV,
    entry: usize,
    hits: Seq<GraphHitV>,
    k: usize,
)
    ensures
        ({
            let after = ordmap::put::<RecordId, usize>(live, id, entry);
            let found = ranked(current(after, hits, hits.len() as int), k);
            forall|i: int|
                0 <= i < found.len() && (#[trigger] found[i]).0 == id ==> scored_as(
                    hits,
                    entry,
                    found[i].1,
                )
        }),
{
    let after = ordmap::put::<RecordId, usize>(live, id, entry);
    let found = ranked(current(after, hits, hits.len() as int), k);
    law_stale_entries_are_not_found(after, hits, k);
    ordmap::lemma_put_lookup_same::<RecordId, usize>(live, id, entry);
    assert forall|i: int| 0 <= i < found.len() && (#[trigger] found[i]).0 == id implies scored_as(
        hits,
        entry,
        found[i].1,
    ) by {
        assert(comes_from(after, hits, found[i]));
        let j = choose|j: int|
            0 <= j < hits.len() && #[trigger] is_current(after, hits[j]) && found[i] == (
                ir::parse_rid(hits[j].payload)->0,
                hits[j].score,
            );
        assert(hits[j].entry == entry);
    }
}

/// The graph found `entry`, with `score`.
pub open spec fn scored_as(hits: Seq<GraphHitV>, entry: usize, score: u32) -> bool {
    exists|j: int|
        0 <= j < hits.len() && (#[trigger] hits[j]).entry == entry && hits[j].score == score
}

/// An approximate search loses nothing that the graph found: where it asks for at least as many as there
/// are hits, each id with a hit at its current entry is found. What is found has the most similar first,
/// and the smaller id where similarities are equal, as far as no similarity is a NaN.
pub proof fn law_current_hits_are_found(
    live: Seq<(RidV, usize)>,
    hits: Seq<GraphHitV>,
    k: usize,
    j: int,
    id: RidV,
)
    requires
        0 <= j < hits.len(),
        ir::parse_rid(hits[j].payload) == Some(id),
        ordmap::lookup::<RecordId, usize>(live, id) == Some(hits[j].entry),
    ensures
        ({
            let found = ranked(current(live, hits, hits.len() as int), k);
            &&& k >= hits.len() ==> exists|i: int|
                0 <= i < found.len() && (#[trigger] found[i]).0 == id
            &&& (forall|m: int|
                0 <= m < hits.len() ==> !number::single_is_nan((#[trigger] hits[m]).score)) ==> forall|
                a: int,
                b: int,
            |
                0 <= a < b < found.len() ==> number::single_gt(
                    (#[trigger] found[a]).1,
                    (#[trigger] found[b]).1,
                ) || (!number::single_gt(found[b].1, found[a].1) && ir::rid_lt(found[a].0, found[b].0))
        }),
{
    let n = hits.len() as int;
    let kept = current(live, hits, n);
    let rows = hit_rows(kept);
    let sorted = select::in_order(false, rows);
    let found = ranked(kept, k);
    select::law_order_is_a_permutation(false, rows);
    lemma_same_rows(sorted, rows);
    lemma_current_ids(live, hits, n);
    lemma_current(live, hits, n);
    lemma_current_kept(live, hits, n, j, id);
    if k >= hits.len() {
        let m = choose|m: int| 0 <= m < kept.len() && (#[trigger] kept[m]).0 == id;
        assert(sorted.contains(rows[m]));
        let i = choose|i: int| 0 <= i < sorted.len() && sorted[i] == rows[m];
        assert(found[i].0 == id);
    }
    if forall|m: int| 0 <= m < hits.len() ==> !number::single_is_nan((#[trigger] hits[m]).score) {
        assert forall|a: int, b: int| 0 <= a < b < rows.len() implies (#[trigger] rows[a]).record.id
            != (#[trigger] rows[b]).record.id by {
            assert(kept[a].0 != kept[b].0);
        }
        assert forall|a: int| 0 <= a < rows.len() implies !number::single_is_nan(
            (#[trigger] rows[a]).score,
        ) by {
            assert(comes_from(live, hits, kept[a]));
            let m = choose|m: int|
                0 <= m < hits.len() && #[trigger] is_current(live, hits[m]) && kept[a] == (
                    ir::parse_rid(hits[m].payload)->0,
                    hits[m].score,
                );
            assert(!number::single_is_nan(hits[m].score));
        }
        select::law_rows_are_totally_ordered(false, rows);
        assert forall|a: int, b: int| 0 <= a < b < found.len() implies number::single_gt(
            (#[trigger] found[a]).1,
            (#[trigger] found[b]).1,
        ) || (!number::single_gt(found[b].1, found[a].1) && ir::rid_lt(found[a].0, found[b].0)) by {
            assert(select::row_before(false, sorted[a], sorted[b]));
        }
    }
}

proof fn lemma_current_kept(
    live: Seq<(RidV, usize)>,
    hits: Seq<GraphHitV>,
    n: int,
    j: int,
    id: RidV,
)
    requires
        0 <= j < n <= hits.len(),
        ir::parse_rid(hits[j].payload) == Some(id),
        ordmap::lookup::<RecordId, usize>(live, id) == Some(hits[j].entry),
    ensures
        current(live, hits, n).len() <= n,
        lists(current(live, hits, n), id),
    decreases n,
{
    let before = current(live, hits, n - 1);
    let after = current(live, hits, n);
    lemma_current_len(live, hits, n);
    if j < n - 1 {
        lemma_current_kept(live, hits, n - 1, j, id);
        let i = choose|i: int| 0 <= i < before.len() && (#[trigger] before[i]).0 == id;
        assert(after[i] == before[i]);
    } else {
        assert(is_current(live, hits[j]));
        if lists(before, id) {
            let i = choose|i: int| 0 <= i < before.len() && (#[trigger] before[i]).0 == id;
            assert(after[i] == before[i]);
        } else {
            assert(after[before.len() as int].0 == id);
        }
    }
}

proof fn lemma_current_len(live: Seq<(RidV, usize)>, hits: Seq<GraphHitV>, n: int)
    requires
        0 <= n,
    ensures
        current(live, hits, n).len() <= n,
    decreases n,
{
    if n > 0 {
        lemma_current_len(live, hits, n - 1);
    }
}

} // verus!
