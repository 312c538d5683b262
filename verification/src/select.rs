//! Selections: which records, with which scores, in which order.
//!
//! The pipeline is fixed. Records of the table are scanned in id order and filtered. A
//! nearest-neighbour clause keeps the `k` most similar. Rows are scored, ordered and cut off. A
//! lexical clause ranks every row by relevance, whatever `ORDER BY` says; together with a
//! nearest-neighbour clause the two rankings are fused.
use vstd::prelude::*;

use crate::bm25;
use crate::bm25::Bm25Index;
#[allow(unused_imports)]
use crate::bm25::IndexV;
use crate::ir;
use crate::ir::{Filter, Order, Record, RecordId, Select, Store};
#[allow(unused_imports)]
use crate::ir::{FilV, RecV, RidV, SelV, StoreV, ValV};
use crate::number;
use crate::ordmap;
use crate::ordmap::{Dup, Key};
use crate::score;
use crate::score::ScoreTask;
#[allow(unused_imports)]
use crate::score::{Scoring, TaskV};
use crate::text;
use crate::votes;

verus! {

/// A record of a result, with its score, a single.
#[derive(Debug, PartialEq)]
pub struct ScoredRecord {
    pub record: Record,
    pub score: u32,
}

#[verifier::ext_equal]
pub struct RowV {
    pub record: RecV,
    pub score: u32,
}

impl View for ScoredRecord {
    type V = RowV;

    open spec fn view(&self) -> RowV {
        RowV { record: self.record@, score: self.score }
    }
}

impl Dup for ScoredRecord {
    fn dup(&self) -> (r: Self) {
        ScoredRecord { record: self.record.dup(), score: self.score }
    }
}

impl Clone for ScoredRecord {
    fn clone(&self) -> (r: Self)
        ensures
            r@ == self@,
    {
        self.dup()
    }
}

// ---------------------------------------------------------------------------------------------
// Filters
// ---------------------------------------------------------------------------------------------
/// The record passes the filter. A lexical filter scores; it lets every record pass.
pub open spec fn passes(rec: RecV, filter: Option<FilV>) -> bool {
    match filter {
        None => true,
        Some(FilV::HasEmbedding) => rec.embedding is Some,
        Some(FilV::FieldEquals { field, value }) => ordmap::lookup::<String, ValV>(
            rec.body,
            field,
        ) matches Some(v) && ir::value_eq(v, value),
        Some(FilV::Bm25 { .. }) => true,
    }
}

/// The record is of the selected table and passes the filter.
pub open spec fn keeps(sel: SelV, rec: RecV) -> bool {
    rec.id.table == sel.table && passes(rec, sel.filter)
}

/// The records among the first `n` that the selection keeps, in id order.
pub open spec fn candidates(recs: Seq<(RidV, RecV)>, sel: SelV, n: int) -> Seq<RecV>
    decreases n,
{
    if n <= 0 {
        Seq::empty()
    } else if keeps(sel, recs[n - 1].1) {
        candidates(recs, sel, n - 1).push(recs[n - 1].1)
    } else {
        candidates(recs, sel, n - 1)
    }
}

fn matches_filter(rec: &Record, filter: &Option<Filter>) -> (r: bool)
    ensures
        r == passes(rec@, ordmap::opt_view(*filter)),
{
    match filter {
        None => true,
        Some(Filter::HasEmbedding) => rec.embedding.is_some(),
        Some(Filter::FieldEquals { field, value }) => match rec.body.get(field) {
            Some(v) => v.equals(value),
            None => false,
        },
        Some(Filter::Bm25 { .. }) => true,
    }
}

fn scan(store: &Store, sel: &Select) -> (r: Vec<Record>)
    ensures
        ordmap::views(r@) == candidates(
            store@.records,
            sel@,
            store@.records.len() as int,
        ),
{
    let entries = &store.records.entries;
    let mut out: Vec<Record> = Vec::new();
    let mut i: usize = 0;
    assert(ordmap::views(out@) =~= Seq::<RecV>::empty());
    while i < entries.len()
        invariant
            i <= entries.len(),
            entries == store.records.entries,
            ordmap::views(out@) == candidates(store@.records, sel@, i as int),
        decreases entries.len() - i,
    {
        let rec = &entries[i].1;
        assert(store@.records[i as int].1 == rec@);
        if text::text_same(rec.id.table.as_str(), sel.table.as_str()) && matches_filter(
            rec,
            &sel.filter,
        ) {
            let ghost before = ordmap::views(out@);
            let copy = rec.dup();
            out.push(copy);
            assert(ordmap::views(out@) =~= before.push(rec@));
        }
        i = i + 1;
    }
    out
}

// ---------------------------------------------------------------------------------------------
// Order
// ---------------------------------------------------------------------------------------------
/// `a` has the higher score, or it does not have the lower one and the smaller id.
pub open spec fn score_before(a: RowV, b: RowV) -> bool {
    number::single_gt(a.score, b.score) || (!number::single_gt(b.score, a.score) && ir::rid_lt(
        a.record.id,
        b.record.id,
    ))
}

/// `a` is the more recent, or as recent and has the smaller id.
pub open spec fn recency_before(a: RowV, b: RowV) -> bool {
    a.record.created_at > b.record.created_at || (a.record.created_at == b.record.created_at
        && ir::rid_lt(a.record.id, b.record.id))
}

/// `a` comes before `b`, by recency or by score.
pub open spec fn row_before(recency: bool, a: RowV, b: RowV) -> bool {
    if recency {
        recency_before(a, b)
    } else {
        score_before(a, b)
    }
}

/// `s` with `r` in its place: behind the rows that it does not come before.
pub open spec fn placed(recency: bool, s: Seq<RowV>, r: RowV) -> Seq<RowV>
    decreases s.len(),
{
    if s.len() > 0 && row_before(recency, r, s.last()) {
        placed(recency, s.drop_last(), r).push(s.last())
    } else {
        s.push(r)
    }
}

/// The first `n` rows of `s`, in order.
pub open spec fn sorted(recency: bool, s: Seq<RowV>, n: int) -> Seq<RowV>
    decreases n,
{
    if n <= 0 {
        Seq::empty()
    } else {
        placed(recency, sorted(recency, s, n - 1), s[n - 1])
    }
}

/// All rows of `s`, in order.
pub open spec fn in_order(recency: bool, s: Seq<RowV>) -> Seq<RowV> {
    sorted(recency, s, s.len() as int)
}

fn comes_before(recency: bool, a: &ScoredRecord, b: &ScoredRecord) -> (r: bool)
    ensures
        r == row_before(recency, a@, b@),
{
    if recency {
        a.record.created_at > b.record.created_at || (a.record.created_at == b.record.created_at
            && a.record.id.before(&b.record.id))
    } else {
        number::single_greater(a.score, b.score) || (!number::single_greater(b.score, a.score)
            && a.record.id.before(&b.record.id))
    }
}

fn place(recency: bool, rows: &mut Vec<ScoredRecord>, row: ScoredRecord)
    ensures
        ordmap::views(final(rows)@) == placed(recency, ordmap::views(old(rows)@), row@),
{
    let ghost s = ordmap::views(rows@);
    let ghost r = row@;
    let mut p: usize = rows.len();
    assert(s.take(p as int) =~= s);
    assert(placed(recency, s.take(p as int), r) + s.skip(p as int) =~= placed(recency, s, r));
    while p > 0 && comes_before(recency, &row, &rows[p - 1])
        invariant
            p <= rows.len(),
            s == ordmap::views(rows@),
            r == row@,
            placed(recency, s, r) == placed(recency, s.take(p as int), r) + s.skip(p as int),
        decreases p,
    {
        proof {
            let head = s.take(p as int);
            assert(head.last() == s[p - 1]);
            assert(head.drop_last() =~= s.take(p - 1));
            assert(placed(recency, head, r) == placed(recency, s.take(p - 1), r).push(s[p - 1]));
            assert(placed(recency, s.take(p - 1), r).push(s[p - 1]) + s.skip(p as int) =~= placed(
                recency,
                s.take(p - 1),
                r,
            ) + s.skip(p - 1));
        }
        p = p - 1;
    }
    proof {
        if p > 0 {
            assert(s.take(p as int).last() == s[p - 1]);
            assert(s[p - 1] == rows@[p - 1]@);
        }
        assert(placed(recency, s.take(p as int), r) == s.take(p as int).push(r));
    }
    rows.insert(p, row);
    assert(ordmap::views(rows@) =~= s.take(p as int).push(r) + s.skip(p as int));
}

fn reversed(rows: Vec<ScoredRecord>) -> (r: Vec<ScoredRecord>)
    ensures
        r@.len() == rows@.len(),
        forall|i: int| 0 <= i < r@.len() ==> (#[trigger] r@[i]) == rows@[rows@.len() - 1 - i],
{
    let ghost s = rows@;
    let mut rows = rows;
    let mut out: Vec<ScoredRecord> = Vec::new();
    while rows.len() > 0
        invariant
            s.len() == rows.len() + out.len(),
            forall|i: int| 0 <= i < rows.len() ==> (#[trigger] rows@[i]) == s[i],
            forall|i: int| 0 <= i < out.len() ==> (#[trigger] out@[i]) == s[s.len() - 1 - i],
        decreases rows.len(),
    {
        match rows.pop() {
            Some(x) => {
                out.push(x);
            },
            None => {},
        }
    }
    out
}

pub(crate) fn sort_rows(recency: bool, rows: Vec<ScoredRecord>) -> (r: Vec<ScoredRecord>)
    ensures
        ordmap::views(r@) == in_order(recency, ordmap::views(rows@)),
{
    let ghost s = ordmap::views(rows@);
    let ghost orig = rows@;
    let mut rest = reversed(rows);
    let mut out: Vec<ScoredRecord> = Vec::new();
    assert(ordmap::views(out@) =~= Seq::<RowV>::empty());
    let ghost mut n: int = 0;
    while rest.len() > 0
        invariant
            0 <= n <= s.len(),
            s.len() == orig.len(),
            s == ordmap::views(orig),
            rest.len() == s.len() - n,
            forall|i: int|
                0 <= i < rest.len() ==> (#[trigger] rest@[i]) == orig[orig.len() - 1 - i],
            ordmap::views(out@) == sorted(recency, s, n),
        decreases rest.len(),
    {
        match rest.pop() {
            Some(x) => {
                assert(x@ == s[n]);
                place(recency, &mut out, x);
                proof {
                    n = n + 1;
                }
            },
            None => {},
        }
    }
    assert(n == s.len());
    out
}

// ---------------------------------------------------------------------------------------------
// Scores
// ---------------------------------------------------------------------------------------------
/// The similarity of a record to the query vector; `0.0` without a query or an embedding.
pub open spec fn similarity(g: Scoring, sel: SelV, rec: RecV) -> u32 {
    match (sel.knn, rec.embedding) {
        (Some(knn), Some(v)) => g(TaskV::Similarity { embedding: v, query: knn.query }),
        _ => number::SINGLE_ZERO,
    }
}

/// The lexical score of a record.
pub open spec fn lexical(g: Scoring, ix: IndexV, query: Seq<Seq<char>>, rec: RecV) -> u32 {
    match bm25::relevance(ix, rec.id, query) {
        Some(terms) => g(TaskV::Relevance(terms)),
        None => number::SINGLE_ZERO,
    }
}

/// The score of a row under the order of the selection; the row holds its similarity.
pub open spec fn order_score(g: Scoring, store: StoreV, sel: SelV, row: RowV) -> u32 {
    let id = row.record.id;
    match sel.order {
        Some(Order::Score) => g(TaskV::Mean { weights: votes::vote_weights(store.edges, id) }),
        Some(Order::Votes) => g(TaskV::Count(votes::net_votes(store.edges, id))),
        Some(Order::Feedback) => g(TaskV::Feedback { votes: votes::vote_ages(store.edges, id) }),
        Some(Order::Salience) => if sel.knn is Some {
            g(
                TaskV::Salience {
                    similarity: row.score,
                    weights: votes::vote_weights(store.edges, id),
                },
            )
        } else {
            g(TaskV::Normalized { weights: votes::vote_weights(store.edges, id) })
        },
        _ => row.score,
    }
}

/// Rows of `recs` that are not scored yet.
pub open spec fn unscored(recs: Seq<RecV>) -> Seq<RowV> {
    Seq::new(recs.len(), |i: int| RowV { record: recs[i], score: number::SINGLE_ZERO })
}

/// `rows` with the scores `scores`.
pub open spec fn rescored(rows: Seq<RowV>, scores: Seq<u32>) -> Seq<RowV> {
    Seq::new(rows.len(), |i: int| RowV { record: rows[i].record, score: scores[i] })
}

/// The similarities of `rows`.
pub open spec fn similarities(g: Scoring, sel: SelV, rows: Seq<RowV>) -> Seq<u32> {
    Seq::new(rows.len(), |i: int| similarity(g, sel, rows[i].record))
}

/// The lexical scores of `rows`.
pub open spec fn lexicals(g: Scoring, ix: IndexV, query: Seq<Seq<char>>, rows: Seq<RowV>) -> Seq<
    u32,
> {
    Seq::new(rows.len(), |i: int| lexical(g, ix, query, rows[i].record))
}

/// The scores of `rows` under the order of the selection.
pub open spec fn order_scores(g: Scoring, store: StoreV, sel: SelV, rows: Seq<RowV>) -> Seq<u32> {
    Seq::new(rows.len(), |i: int| order_score(g, store, sel, rows[i]))
}

/// How many of the first `n` rows have a score before that of row `i`.
pub open spec fn ahead(rows: Seq<RowV>, i: int, n: int) -> int
    decreases n,
{
    if n <= 0 {
        0
    } else {
        ahead(rows, i, n - 1) + if score_before(rows[n - 1], rows[i]) {
            1int
        } else {
            0
        }
    }
}

/// The rank of row `i` by score, from 1 on.
pub open spec fn rank(rows: Seq<RowV>, i: int) -> int {
    1 + ahead(rows, i, rows.len() as int)
}

/// The fused scores of rows that have the scores `lex` in one ranking and `sims` in the other.
pub open spec fn fusions(g: Scoring, rows: Seq<RowV>, lex: Seq<u32>, sims: Seq<u32>) -> Seq<u32> {
    Seq::new(
        rows.len(),
        |i: int|
            g(
                TaskV::Fusion {
                    lexical: rank(rescored(rows, lex), i),
                    vector: rank(rescored(rows, sims), i),
                },
            ),
    )
}

/// The first `n` of `s`, or all of it.
pub open spec fn at_most<A>(s: Seq<A>, n: usize) -> Seq<A> {
    if n < s.len() {
        s.take(n as int)
    } else {
        s
    }
}

/// The smaller of two optional caps.
pub open spec fn tighter(a: Option<usize>, b: Option<usize>) -> Option<usize> {
    match (a, b) {
        (Some(x), Some(y)) => if x <= y {
            Some(x)
        } else {
            Some(y)
        },
        (Some(x), None) => Some(x),
        (None, y) => y,
    }
}

/// The row cap of a selection: the smallest of the `k` of each clause and the limit.
pub open spec fn row_cap(sel: SelV) -> Option<usize> {
    let knn_k = match sel.knn {
        Some(knn) => Some(knn.k),
        None => None,
    };
    let lexical_k = match sel.filter {
        Some(FilV::Bm25 { k, .. }) => k,
        _ => None,
    };
    tighter(tighter(knn_k, lexical_k), sel.limit)
}

/// `rows` cut off at the row cap.
pub open spec fn capped(sel: SelV, rows: Seq<RowV>) -> Seq<RowV> {
    match row_cap(sel) {
        Some(n) => at_most(rows, n),
        None => rows,
    }
}

/// The rows of a selection with a lexical clause, scored.
pub open spec fn lexical_rows(
    g: Scoring,
    sel: SelV,
    recs: Seq<RecV>,
    field: Seq<char>,
    query: Seq<char>,
) -> Seq<RowV> {
    let rows = unscored(recs);
    let ix = bm25::index_of(field, recs, recs.len() as int);
    let lex = lexicals(g, ix, bm25::words(query), rows);
    if sel.knn is Some {
        rescored(rows, fusions(g, rows, lex, similarities(g, sel, rows)))
    } else {
        rescored(rows, lex)
    }
}

/// The rows of a selection without a lexical clause, with their similarities: the `k` nearest where
/// it has a nearest-neighbour clause.
pub open spec fn nearest_rows(g: Scoring, sel: SelV, recs: Seq<RecV>) -> Seq<RowV> {
    let rows = rescored(unscored(recs), similarities(g, sel, unscored(recs)));
    match sel.knn {
        Some(knn) => at_most(in_order(false, rows), knn.k),
        None => rows,
    }
}

/// The result of a selection on a store.
pub open spec fn select_rows(g: Scoring, store: StoreV, sel: SelV) -> Seq<RowV> {
    let recs = candidates(store.records, sel, store.records.len() as int);
    match sel.filter {
        Some(FilV::Bm25 { field, query, .. }) => capped(
            sel,
            in_order(false, lexical_rows(g, sel, recs, field, query)),
        ),
        _ => {
            let rows = nearest_rows(g, sel, recs);
            let scored = rescored(rows, order_scores(g, store, sel, rows));
            if sel.order is Some || sel.knn is Some {
                capped(sel, in_order(sel.order == Some(Order::Recency), scored))
            } else {
                capped(sel, scored)
            }
        },
    }
}

fn unscored_rows(recs: Vec<Record>) -> (r: Vec<ScoredRecord>)
    ensures
        ordmap::views(r@) == unscored(ordmap::views(recs@)),
{
    let ghost s = recs@;
    let mut recs = recs;
    let mut rev: Vec<ScoredRecord> = Vec::new();
    while recs.len() > 0
        invariant
            s.len() == recs.len() + rev.len(),
            forall|i: int| 0 <= i < recs.len() ==> (#[trigger] recs@[i]) == s[i],
            forall|i: int|
                0 <= i < rev.len() ==> (#[trigger] rev@[i]).record == s[s.len() - 1 - i]
                    && rev@[i].score == number::SINGLE_ZERO,
        decreases recs.len(),
    {
        match recs.pop() {
            Some(record) => {
                rev.push(ScoredRecord { record, score: number::SINGLE_ZERO });
            },
            None => {},
        }
    }
    let out = reversed(rev);
    assert(ordmap::views(out@) =~= unscored(ordmap::views(s)));
    out
}

fn set_scores(rows: Vec<ScoredRecord>, scores: &Vec<u32>) -> (r: Vec<ScoredRecord>)
    requires
        rows@.len() == scores@.len(),
    ensures
        ordmap::views(r@) == rescored(ordmap::views(rows@), scores@),
{
    let ghost s = rows@;
    let mut rest = reversed(rows);
    let mut out: Vec<ScoredRecord> = Vec::new();
    while rest.len() > 0
        invariant
            s.len() == rest.len() + out.len(),
            s.len() == scores@.len(),
            forall|i: int| 0 <= i < rest.len() ==> (#[trigger] rest@[i]) == s[s.len() - 1 - i],
            forall|i: int|
                0 <= i < out.len() ==> (#[trigger] out@[i]).record == s[i].record && out@[i].score
                    == scores@[i],
        decreases rest.len(),
    {
        match rest.pop() {
            Some(row) => {
                let i: usize = out.len();
                assert(row == s[i as int]);
                out.push(ScoredRecord { record: row.record, score: scores[i] });
            },
            None => {},
        }
    }
    assert(ordmap::views(out@) =~= rescored(ordmap::views(s), scores@));
    out
}

fn similarity_scores<F: Fn(ScoreTask) -> u32>(
    sel: &Select,
    rows: &Vec<ScoredRecord>,
    f: &F,
) -> (r: Vec<u32>)
    requires
        score::takes_tasks(*f),
    ensures
        r@.len() == rows@.len(),
        forall|g: Scoring| #[trigger]
            score::scores_by(*f, g) ==> r@ == similarities(g, sel@, ordmap::views(rows@)),
{
    let mut out: Vec<u32> = Vec::new();
    let mut i: usize = 0;
    while i < rows.len()
        invariant
            score::takes_tasks(*f),
            i <= rows.len(),
            out.len() == i,
            forall|g: Scoring, j: int|
                #![trigger score::scores_by(*f, g), out@[j]]
                score::scores_by(*f, g) && 0 <= j < i ==> out@[j] == similarity(
                    g,
                    sel@,
                    rows@[j]@.record,
                ),
        decreases rows.len() - i,
    {
        let s: u32 = match &sel.knn {
            Some(knn) => match &rows[i].record.embedding {
                Some(v) => {
                    let embedding = ir::singles_dup(v);
                    let query = ir::singles_dup(&knn.query);
                    f(ScoreTask::Similarity { embedding, query })
                },
                None => number::SINGLE_ZERO,
            },
            None => number::SINGLE_ZERO,
        };
        out.push(s);
        i = i + 1;
    }
    assert forall|g: Scoring| #[trigger] score::scores_by(*f, g) implies out@ == similarities(
        g,
        sel@,
        ordmap::views(rows@),
    ) by {
        assert(out@ =~= similarities(g, sel@, ordmap::views(rows@)));
    }
    out
}

fn lexical_scores<F: Fn(ScoreTask) -> u32>(
    ix: &Bm25Index,
    query: &Vec<String>,
    rows: &Vec<ScoredRecord>,
    f: &F,
) -> (r: Vec<u32>)
    requires
        score::takes_tasks(*f),
    ensures
        r@.len() == rows@.len(),
        forall|g: Scoring| #[trigger]
            score::scores_by(*f, g) ==> r@ == lexicals(
                g,
                ix@,
                ordmap::views(query@),
                ordmap::views(rows@),
            ),
{
    let ghost q = ordmap::views(query@);
    let mut out: Vec<u32> = Vec::new();
    let mut i: usize = 0;
    while i < rows.len()
        invariant
            score::takes_tasks(*f),
            i <= rows.len(),
            q == ordmap::views(query@),
            out.len() == i,
            forall|g: Scoring, j: int|
                #![trigger score::scores_by(*f, g), out@[j]]
                score::scores_by(*f, g) && 0 <= j < i ==> out@[j] == lexical(
                    g,
                    ix@,
                    q,
                    rows@[j]@.record,
                ),
        decreases rows.len() - i,
    {
        let s: u32 = match ix.score(&rows[i].record.id, query) {
            Some(terms) => f(ScoreTask::Relevance(terms)),
            None => number::SINGLE_ZERO,
        };
        out.push(s);
        i = i + 1;
    }
    assert forall|g: Scoring| #[trigger] score::scores_by(*f, g) implies out@ == lexicals(
        g,
        ix@,
        q,
        ordmap::views(rows@),
    ) by {
        assert(out@ =~= lexicals(g, ix@, q, ordmap::views(rows@)));
    }
    out
}

/// The score of one row under the order of the selection; the row holds its similarity.
fn compute_score<F: Fn(ScoreTask) -> u32>(
    store: &Store,
    sel: &Select,
    row: &ScoredRecord,
    f: &F,
) -> (r: u32)
    requires
        score::takes_tasks(*f),
    ensures
        forall|g: Scoring| #[trigger]
            score::scores_by(*f, g) ==> r == order_score(g, store@, sel@, row@),
{
    let id = &row.record.id;
    match sel.order {
        Some(Order::Score) => {
            let weights = votes::weights_toward(store, id);
            f(ScoreTask::Mean { weights })
        },
        Some(Order::Votes) => f(ScoreTask::Count(votes::net_of_votes(store, id))),
        Some(Order::Feedback) => {
            let votes = votes::feedback_toward(store, id);
            f(ScoreTask::Feedback { votes })
        },
        Some(Order::Salience) => {
            let weights = votes::weights_toward(store, id);
            if sel.knn.is_some() {
                f(ScoreTask::Salience { similarity: row.score, weights })
            } else {
                f(ScoreTask::Normalized { weights })
            }
        },
        _ => row.score,
    }
}

fn ordering_scores<F: Fn(ScoreTask) -> u32>(
    store: &Store,
    sel: &Select,
    rows: &Vec<ScoredRecord>,
    f: &F,
) -> (r: Vec<u32>)
    requires
        score::takes_tasks(*f),
    ensures
        r@.len() == rows@.len(),
        forall|g: Scoring| #[trigger]
            score::scores_by(*f, g) ==> r@ == order_scores(
                g,
                store@,
                sel@,
                ordmap::views(rows@),
            ),
{
    let mut out: Vec<u32> = Vec::new();
    let mut i: usize = 0;
    while i < rows.len()
        invariant
            score::takes_tasks(*f),
            i <= rows.len(),
            out.len() == i,
            forall|g: Scoring, j: int|
                #![trigger score::scores_by(*f, g), out@[j]]
                score::scores_by(*f, g) && 0 <= j < i ==> out@[j] == order_score(
                    g,
                    store@,
                    sel@,
                    rows@[j]@,
                ),
        decreases rows.len() - i,
    {
        let s: u32 = compute_score(store, sel, &rows[i], f);
        out.push(s);
        i = i + 1;
    }
    assert forall|g: Scoring| #[trigger] score::scores_by(*f, g) implies out@ == order_scores(
        g,
        store@,
        sel@,
        ordmap::views(rows@),
    ) by {
        assert(out@ =~= order_scores(g, store@, sel@, ordmap::views(rows@)));
    }
    out
}

/// The rank of row `i` by `scores`, from 1 on.
fn rank_of(rows: &Vec<ScoredRecord>, scores: &Vec<u32>, i: usize) -> (r: u64)
    requires
        rows@.len() == scores@.len(),
        i < rows@.len(),
    ensures
        r == rank(rescored(ordmap::views(rows@), scores@), i as int),
{
    let ghost s = rescored(ordmap::views(rows@), scores@);
    let mut n: u64 = 1;
    let mut j: usize = 0;
    while j < rows.len()
        invariant
            rows@.len() == scores@.len(),
            i < rows@.len(),
            j <= rows.len(),
            s == rescored(ordmap::views(rows@), scores@),
            n == 1 + ahead(s, i as int, j as int),
            1 <= n <= 1 + j,
            j > i ==> n <= j,
        decreases rows.len() - j,
    {
        assert(s[j as int].record == rows@[j as int]@.record && s[j as int].score
            == scores@[j as int]);
        assert(s[i as int].record == rows@[i as int]@.record && s[i as int].score
            == scores@[i as int]);
        proof {
            RecordId::key_lt_irreflexive(rows@[i as int].record.id@);
        }
        if number::single_greater(scores[j], scores[i]) || (!number::single_greater(
            scores[i],
            scores[j],
        ) && rows[j].record.id.before(&rows[i].record.id)) {
            n = n + 1;
        }
        j = j + 1;
    }
    n
}

fn fusion_scores<F: Fn(ScoreTask) -> u32>(
    rows: &Vec<ScoredRecord>,
    lex: &Vec<u32>,
    sims: &Vec<u32>,
    f: &F,
) -> (r: Vec<u32>)
    requires
        score::takes_tasks(*f),
        lex@.len() == rows@.len(),
        sims@.len() == rows@.len(),
    ensures
        r@.len() == rows@.len(),
        forall|g: Scoring| #[trigger]
            score::scores_by(*f, g) ==> r@ == fusions(g, ordmap::views(rows@), lex@, sims@),
{
    let ghost s = ordmap::views(rows@);
    let mut out: Vec<u32> = Vec::new();
    let mut i: usize = 0;
    while i < rows.len()
        invariant
            score::takes_tasks(*f),
            lex@.len() == rows@.len(),
            sims@.len() == rows@.len(),
            i <= rows.len(),
            s == ordmap::views(rows@),
            out.len() == i,
            forall|g: Scoring, j: int|
                #![trigger score::scores_by(*f, g), out@[j]]
                score::scores_by(*f, g) && 0 <= j < i ==> out@[j] == fusions(g, s, lex@, sims@)[j],
        decreases rows.len() - i,
    {
        let lexical: u64 = rank_of(rows, lex, i);
        let vector: u64 = rank_of(rows, sims, i);
        let x: u32 = f(ScoreTask::Fusion { lexical, vector });
        out.push(x);
        i = i + 1;
    }
    assert forall|g: Scoring| #[trigger] score::scores_by(*f, g) implies out@ == fusions(
        g,
        s,
        lex@,
        sims@,
    ) by {
        assert(out@ =~= fusions(g, s, lex@, sims@));
    }
    out
}

pub(crate) fn cut(rows: Vec<ScoredRecord>, n: usize) -> (r: Vec<ScoredRecord>)
    ensures
        ordmap::views(r@) == at_most(ordmap::views(rows@), n),
{
    let mut rows = rows;
    let ghost s = ordmap::views(rows@);
    rows.truncate(n);
    assert(ordmap::views(rows@) =~= at_most(s, n));
    rows
}

fn smaller_cap(a: Option<usize>, b: Option<usize>) -> (r: Option<usize>)
    ensures
        r == tighter(a, b),
{
    match (a, b) {
        (Some(x), Some(y)) => if x <= y {
            Some(x)
        } else {
            Some(y)
        },
        (Some(x), None) => Some(x),
        (None, y) => y,
    }
}

fn effective_limit(sel: &Select) -> (r: Option<usize>)
    ensures
        r == row_cap(sel@),
{
    let knn_k = match &sel.knn {
        Some(knn) => Some(knn.k),
        None => None,
    };
    let lexical_k = match &sel.filter {
        Some(Filter::Bm25 { k, .. }) => *k,
        _ => None,
    };
    smaller_cap(smaller_cap(knn_k, lexical_k), sel.limit)
}

fn cap_rows(sel: &Select, rows: Vec<ScoredRecord>) -> (r: Vec<ScoredRecord>)
    ensures
        ordmap::views(r@) == capped(sel@, ordmap::views(rows@)),
{
    match effective_limit(sel) {
        Some(n) => cut(rows, n),
        None => rows,
    }
}

fn ranked_lexically<F: Fn(ScoreTask) -> u32>(
    sel: &Select,
    recs: Vec<Record>,
    field: &str,
    query: &str,
    f: &F,
) -> (r: Vec<ScoredRecord>)
    requires
        score::takes_tasks(*f),
    ensures
        forall|g: Scoring| #[trigger]
            score::scores_by(*f, g) ==> ordmap::views(r@) == lexical_rows(
                g,
                sel@,
                ordmap::views(recs@),
                field@,
                query@,
            ),
{
    let ix = Bm25Index::new(field, &recs);
    let ws = bm25::tokenize(query);
    let rows = unscored_rows(recs);
    let lex = lexical_scores(&ix, &ws, &rows, f);
    if sel.knn.is_some() {
        let sims = similarity_scores(sel, &rows, f);
        let fused = fusion_scores(&rows, &lex, &sims, f);
        set_scores(rows, &fused)
    } else {
        set_scores(rows, &lex)
    }
}

fn nearest<F: Fn(ScoreTask) -> u32>(sel: &Select, recs: Vec<Record>, f: &F) -> (r: Vec<
    ScoredRecord,
>)
    requires
        score::takes_tasks(*f),
    ensures
        forall|g: Scoring| #[trigger]
            score::scores_by(*f, g) ==> ordmap::views(r@) == nearest_rows(
                g,
                sel@,
                ordmap::views(recs@),
            ),
{
    let rows = unscored_rows(recs);
    let sims = similarity_scores(sel, &rows, f);
    let rows = set_scores(rows, &sims);
    match &sel.knn {
        Some(knn) => {
            let rows = sort_rows(false, rows);
            cut(rows, knn.k)
        },
        None => rows,
    }
}

/// Runs a selection on a store. `f` computes the scores.
pub fn run_select<F: Fn(ScoreTask) -> u32>(store: &Store, sel: &Select, f: &F) -> (r: Vec<
    ScoredRecord,
>)
    requires
        score::takes_tasks(*f),
    ensures
        forall|g: Scoring| #[trigger]
            score::scores_by(*f, g) ==> ordmap::views(r@) == select_rows(g, store@, sel@),
{
    let recs = scan(store, sel);
    match &sel.filter {
        Some(Filter::Bm25 { field, query, .. }) => {
            let rows = ranked_lexically(sel, recs, field.as_str(), query.as_str(), f);
            let rows = sort_rows(false, rows);
            cap_rows(sel, rows)
        },
        _ => {
            let rows = nearest(sel, recs, f);
            let scores = ordering_scores(store, sel, &rows, f);
            let rows = set_scores(rows, &scores);
            if sel.order.is_some() || sel.knn.is_some() {
                let recency = match sel.order {
                    Some(Order::Recency) => true,
                    _ => false,
                };
                let rows = sort_rows(recency, rows);
                cap_rows(sel, rows)
            } else {
                cap_rows(sel, rows)
            }
        },
    }
}

// ---------------------------------------------------------------------------------------------
// Laws of order
// ---------------------------------------------------------------------------------------------
/// No row has a NaN for a score.
pub open spec fn no_nan(rows: Seq<RowV>) -> bool {
    forall|i: int| 0 <= i < rows.len() ==> !number::single_is_nan((#[trigger] rows[i]).score)
}

/// No two rows have the same id.
pub open spec fn distinct_ids(rows: Seq<RowV>) -> bool {
    forall|i: int, j: int|
        0 <= i < j < rows.len() ==> (#[trigger] rows[i]).record.id != (#[trigger] rows[j]).record.id
}

/// Each row comes before all later ones.
pub open spec fn is_ordered(recency: bool, rows: Seq<RowV>) -> bool {
    forall|i: int, j: int|
        0 <= i < j < rows.len() ==> row_before(recency, #[trigger] rows[i], #[trigger] rows[j])
}

/// The order by recency, and that by score among rows without a NaN, is strict, transitive, and
/// decides between any two ids.
pub proof fn law_row_order_is_total(recency: bool, a: RowV, b: RowV, c: RowV)
    requires
        recency || (!number::single_is_nan(a.score) && !number::single_is_nan(b.score)
            && !number::single_is_nan(c.score)),
    ensures
        !row_before(recency, a, a),
        row_before(recency, a, b) && row_before(recency, b, c) ==> row_before(recency, a, c),
        a.record.id != b.record.id ==> row_before(recency, a, b) != row_before(recency, b, a),
{
    let (x, y, z) = (a.record.id, b.record.id, c.record.id);
    RecordId::key_lt_irreflexive(x);
    RecordId::key_lt_total(x, y);
    if ir::rid_lt(x, y) && ir::rid_lt(y, z) {
        RecordId::key_lt_transitive(x, y, z);
    }
    if ir::rid_lt(x, y) && ir::rid_lt(y, x) {
        RecordId::key_lt_transitive(x, y, x);
    }
}

/// Where `placed` puts a row: behind the last row that it does not come before.
proof fn lemma_placed(recency: bool, s: Seq<RowV>, r: RowV) -> (p: int)
    ensures
        0 <= p <= s.len(),
        placed(recency, s, r) == s.insert(p, r),
        p > 0 ==> !row_before(recency, r, s[p - 1]),
        forall|j: int| p <= j < s.len() ==> row_before(recency, r, #[trigger] s[j]),
    decreases s.len(),
{
    if s.len() > 0 && row_before(recency, r, s.last()) {
        let p = lemma_placed(recency, s.drop_last(), r);
        assert(placed(recency, s, r) =~= s.insert(p, r));
        assert forall|j: int| p <= j < s.len() implies row_before(recency, r, #[trigger] s[j]) by {
            if j < s.len() - 1 {
                assert(s.drop_last()[j] == s[j]);
            }
        }
        p
    } else {
        assert(s.push(r) =~= s.insert(s.len() as int, r));
        s.len() as int
    }
}

proof fn lemma_placed_ordered(recency: bool, s: Seq<RowV>, r: RowV)
    requires
        is_ordered(recency, s),
        recency || no_nan(s.push(r)),
        forall|i: int| 0 <= i < s.len() ==> (#[trigger] s[i]).record.id != r.record.id,
    ensures
        is_ordered(recency, placed(recency, s, r)),
{
    let p = lemma_placed(recency, s, r);
    let t = s.insert(p, r);
    assert(recency || !number::single_is_nan(r.score)) by {
        assert(s.push(r)[s.len() as int] == r);
    }
    assert forall|i: int| 0 <= i < s.len() implies recency || !number::single_is_nan(
        (#[trigger] s[i]).score,
    ) by {
        assert(s.push(r)[i] == s[i]);
    }
    assert forall|i: int| 0 <= i < p implies row_before(recency, #[trigger] s[i], r) by {
        law_row_order_is_total(recency, s[p - 1], r, r);
        if i < p - 1 {
            assert(row_before(recency, s[i], s[p - 1]));
            law_row_order_is_total(recency, s[i], s[p - 1], r);
        }
    }
    assert forall|i: int, j: int| 0 <= i < j < t.len() implies row_before(
        recency,
        #[trigger] t[i],
        #[trigger] t[j],
    ) by {
        let a = if i < p {
            i
        } else {
            i - 1
        };
        let b = if j < p {
            j
        } else {
            j - 1
        };
        if i != p && j != p {
            assert(t[i] == s[a] && t[j] == s[b]);
        } else if i == p {
            assert(t[j] == s[b]);
        } else {
            assert(t[i] == s[a]);
        }
    }
}

proof fn lemma_sorted(recency: bool, s: Seq<RowV>, n: int)
    requires
        0 <= n <= s.len(),
    ensures
        sorted(recency, s, n).to_multiset() == s.take(n).to_multiset(),
        sorted(recency, s, n).len() == n,
        forall|i: int| 0 <= i < n ==> s.take(n).contains(#[trigger] sorted(recency, s, n)[i]),
    decreases n,
{
    broadcast use vstd::seq_lib::group_to_multiset_ensures;

    if n > 0 {
        lemma_sorted(recency, s, n - 1);
        let before = sorted(recency, s, n - 1);
        let p = lemma_placed(recency, before, s[n - 1]);
        vstd::seq_lib::to_multiset_insert(before, p, s[n - 1]);
        assert(s.take(n) =~= s.take(n - 1).push(s[n - 1]));
        let after = sorted(recency, s, n);
        assert forall|i: int| 0 <= i < n implies s.take(n).contains(#[trigger] after[i]) by {
            assert(after.to_multiset().count(after[i]) > 0);
            assert(s.take(n).to_multiset().count(after[i]) > 0);
        }
    } else {
        assert(s.take(0) =~= Seq::<RowV>::empty());
    }
}

/// Ordering rows neither adds, drops nor changes one.
pub proof fn law_order_is_a_permutation(recency: bool, s: Seq<RowV>)
    ensures
        in_order(recency, s).to_multiset() == s.to_multiset(),
        in_order(recency, s).len() == s.len(),
{
    lemma_sorted(recency, s, s.len() as int);
    assert(s.take(s.len() as int) =~= s);
}

proof fn lemma_sorted_ordered(recency: bool, s: Seq<RowV>, n: int)
    requires
        0 <= n <= s.len(),
        recency || no_nan(s),
        distinct_ids(s),
    ensures
        is_ordered(recency, sorted(recency, s, n)),
        recency || no_nan(sorted(recency, s, n)),
    decreases n,
{
    if n > 0 {
        lemma_sorted_ordered(recency, s, n - 1);
        lemma_sorted(recency, s, n - 1);
        lemma_sorted(recency, s, n);
        let before = sorted(recency, s, n - 1);
        assert forall|i: int| 0 <= i < before.len() implies (#[trigger] before[i]).record.id
            != s[n - 1].record.id by {
            let head = s.take(n - 1);
            let j = choose|j: int| 0 <= j < head.len() && head[j] == before[i];
            assert(s[j] == before[i]);
        }
        assert forall|i: int| 0 <= i < before.push(s[n - 1]).len() implies recency
            || !number::single_is_nan((#[trigger] before.push(s[n - 1])[i]).score) by {
            if i < before.len() {
                assert(recency || !number::single_is_nan(before[i].score));
            }
        }
        lemma_placed_ordered(recency, before, s[n - 1]);
        let after = sorted(recency, s, n);
        assert forall|i: int| 0 <= i < after.len() implies recency || !number::single_is_nan(
            (#[trigger] after[i]).score,
        ) by {
            let head = s.take(n);
            let j = choose|j: int| 0 <= j < head.len() && head[j] == after[i];
            assert(s[j] == after[i]);
        }
    }
}

/// Ordered rows are in a total order: each comes before all later ones, by the order's key,
/// descending, and by ascending record id where the keys are equal.
pub proof fn law_rows_are_totally_ordered(recency: bool, s: Seq<RowV>)
    requires
        recency || no_nan(s),
        distinct_ids(s),
    ensures
        is_ordered(recency, in_order(recency, s)),
{
    lemma_sorted_ordered(recency, s, s.len() as int);
}

// ---------------------------------------------------------------------------------------------
// Laws of selection
// ---------------------------------------------------------------------------------------------
proof fn lemma_candidates(recs: Seq<(RidV, RecV)>, sel: SelV, n: int)
    requires
        0 <= n <= recs.len(),
    ensures
        candidates(recs, sel, n).len() <= n,
        forall|i: int|
            0 <= i < candidates(recs, sel, n).len() ==> keeps(
                sel,
                #[trigger] candidates(recs, sel, n)[i],
            ) && exists|k: int| 0 <= k < n && (#[trigger] recs[k]).1 == candidates(recs, sel, n)[i],
        forall|k: int|
            0 <= k < n && keeps(sel, (#[trigger] recs[k]).1) ==> candidates(
                recs,
                sel,
                n,
            ).contains(recs[k].1),
    decreases n,
{
    if n > 0 {
        lemma_candidates(recs, sel, n - 1);
        let before = candidates(recs, sel, n - 1);
        let after = candidates(recs, sel, n);
        assert forall|i: int| 0 <= i < after.len() implies keeps(sel, #[trigger] after[i])
            && exists|k: int| 0 <= k < n && (#[trigger] recs[k]).1 == after[i] by {
            if i < before.len() {
                assert(after[i] == before[i]);
                let k = choose|k: int| 0 <= k < n - 1 && (#[trigger] recs[k]).1 == before[i];
                assert(recs[k].1 == after[i]);
            } else {
                assert(recs[n - 1].1 == after[i]);
            }
        }
        assert forall|k: int| 0 <= k < n && keeps(
            sel,
            (#[trigger] recs[k]).1,
        ) implies after.contains(recs[k].1) by {
            if k < n - 1 {
                let i = choose|i: int| 0 <= i < before.len() && before[i] == recs[k].1;
                assert(after[i] == recs[k].1);
            } else {
                assert(after[before.len() as int] == recs[k].1);
            }
        }
    }
}

/// Candidates are in ascending id order.
proof fn lemma_candidates_ascend(store: StoreV, sel: SelV, n: int)
    requires
        ir::store_wf(store),
        0 <= n <= store.records.len(),
    ensures
        ({
            let c = candidates(store.records, sel, n);
            &&& forall|i: int, j: int|
                0 <= i < j < c.len() ==> ir::rid_lt((#[trigger] c[i]).id, (#[trigger] c[j]).id)
            &&& n < store.records.len() ==> forall|i: int|
                0 <= i < c.len() ==> ir::rid_lt((#[trigger] c[i]).id, store.records[n].0)
        }),
    decreases n,
{
    let recs = store.records;
    if n > 0 {
        lemma_candidates_ascend(store, sel, n - 1);
        let before = candidates(recs, sel, n - 1);
        let c = candidates(recs, sel, n);
        assert(recs[n - 1].1.id == recs[n - 1].0);
        assert forall|i: int, j: int| 0 <= i < j < c.len() implies ir::rid_lt(
            (#[trigger] c[i]).id,
            (#[trigger] c[j]).id,
        ) by {
            assert(c[i] == before[i]);
            if j < before.len() {
                assert(c[j] == before[j]);
            }
        }
        if n < recs.len() {
            assert(RecordId::key_lt(recs[n - 1].0, recs[n].0));
            assert forall|i: int| 0 <= i < c.len() implies ir::rid_lt(
                (#[trigger] c[i]).id,
                recs[n].0,
            ) by {
                if i < before.len() {
                    assert(c[i] == before[i]);
                    RecordId::key_lt_transitive(before[i].id, recs[n - 1].0, recs[n].0);
                }
            }
        }
    }
}

/// A selection without a clause gives the records of the table, each once, in ascending id order
/// and with the score `0.0`.
pub proof fn law_plain_select_scans_the_table(g: Scoring, store: StoreV, table: Seq<char>)
    requires
        ir::store_wf(store),
    ensures
        ({
            let sel = SelV {
                table,
                knn: None,
                filter: None,
                order: None,
                limit: None,
                as_of: None,
            };
            let rows = select_rows(g, store, sel);
            &&& forall|i: int, j: int|
                0 <= i < j < rows.len() ==> ir::rid_lt(
                    (#[trigger] rows[i]).record.id,
                    (#[trigger] rows[j]).record.id,
                )
            &&& forall|i: int|
                0 <= i < rows.len() ==> (#[trigger] rows[i]).score == number::SINGLE_ZERO
                    && rows[i].record.id.table == table
            &&& forall|k: int|
                0 <= k < store.records.len() && (#[trigger] store.records[k]).1.id.table == table
                    ==> rows.contains(
                    RowV { record: store.records[k].1, score: number::SINGLE_ZERO },
                )
        }),
{
    let sel = SelV { table, knn: None, filter: None, order: None, limit: None, as_of: None };
    let n = store.records.len() as int;
    let recs = candidates(store.records, sel, n);
    let rows = select_rows(g, store, sel);
    lemma_candidates(store.records, sel, n);
    lemma_candidates_ascend(store, sel, n);
    assert(rows.len() == recs.len());
    assert forall|i: int| 0 <= i < rows.len() implies (#[trigger] rows[i]).score
        == number::SINGLE_ZERO && rows[i].record == recs[i] by {}
    assert forall|k: int| 0 <= k < n && (#[trigger] store.records[k]).1.id.table
        == table implies rows.contains(
        RowV { record: store.records[k].1, score: number::SINGLE_ZERO },
    ) by {
        assert(keeps(sel, store.records[k].1));
        let i = choose|i: int| 0 <= i < recs.len() && recs[i] == store.records[k].1;
        assert(rows[i] == (RowV { record: store.records[k].1, score: number::SINGLE_ZERO }));
    }
}

/// Every row of `rows` is a record of `recs`.
spec fn drawn_from(rows: Seq<RowV>, recs: Seq<RecV>) -> bool {
    forall|i: int| 0 <= i < rows.len() ==> recs.contains((#[trigger] rows[i]).record)
}

proof fn lemma_in_order_drawn(recency: bool, rows: Seq<RowV>, recs: Seq<RecV>)
    requires
        drawn_from(rows, recs),
    ensures
        drawn_from(in_order(recency, rows), recs),
        in_order(recency, rows).len() == rows.len(),
{
    let out = in_order(recency, rows);
    lemma_sorted(recency, rows, rows.len() as int);
    assert forall|i: int| 0 <= i < out.len() implies recs.contains(
        (#[trigger] out[i]).record,
    ) by {
        let all = rows.take(rows.len() as int);
        let j = choose|j: int| 0 <= j < all.len() && all[j] == out[i];
        assert(rows[j] == out[i]);
    }
}

proof fn lemma_unscored_drawn(recs: Seq<RecV>, scores: Seq<u32>)
    ensures
        drawn_from(unscored(recs), recs),
        drawn_from(rescored(unscored(recs), scores), recs),
{
    assert forall|i: int| 0 <= i < recs.len() implies recs.contains(
        (#[trigger] unscored(recs)[i]).record,
    ) by {
        assert(unscored(recs)[i].record == recs[i]);
    }
    assert forall|i: int| 0 <= i < recs.len() implies recs.contains(
        (#[trigger] rescored(unscored(recs), scores)[i]).record,
    ) by {
        assert(rescored(unscored(recs), scores)[i].record == recs[i]);
    }
}

/// Every row of a result is a stored record of the selected table that passes the filter, and the
/// result has no more rows than the row cap allows.
pub proof fn law_rows_are_kept_records(g: Scoring, store: StoreV, sel: SelV)
    ensures
        ({
            let rows = select_rows(g, store, sel);
            &&& row_cap(sel) matches Some(n) ==> rows.len() <= n
            &&& forall|i: int|
                0 <= i < rows.len() ==> keeps(sel, (#[trigger] rows[i]).record) && exists|k: int|
                    0 <= k < store.records.len() && (#[trigger] store.records[k]).1
                        == rows[i].record
        }),
{
    let n = store.records.len() as int;
    let recs = candidates(store.records, sel, n);
    let rows = select_rows(g, store, sel);
    lemma_candidates(store.records, sel, n);
    match sel.filter {
        Some(FilV::Bm25 { field, query, .. }) => {
            let scored = lexical_rows(g, sel, recs, field, query);
            let ix = bm25::index_of(field, recs, recs.len() as int);
            let lex = lexicals(g, ix, bm25::words(query), unscored(recs));
            lemma_unscored_drawn(recs, lex);
            lemma_unscored_drawn(
                recs,
                fusions(g, unscored(recs), lex, similarities(g, sel, unscored(recs))),
            );
            lemma_in_order_drawn(false, scored, recs);
        },
        _ => {
            lemma_unscored_drawn(recs, similarities(g, sel, unscored(recs)));
            let near = rescored(unscored(recs), similarities(g, sel, unscored(recs)));
            lemma_in_order_drawn(false, near, recs);
            let picked = nearest_rows(g, sel, recs);
            assert(drawn_from(picked, recs));
            let scored = rescored(picked, order_scores(g, store, sel, picked));
            assert forall|i: int| 0 <= i < scored.len() implies recs.contains(
                (#[trigger] scored[i]).record,
            ) by {
                assert(scored[i].record == picked[i].record);
            }
            lemma_in_order_drawn(sel.order == Some(Order::Recency), scored, recs);
        },
    }
    assert(drawn_from(rows, recs));
    assert forall|i: int| 0 <= i < rows.len() implies keeps(sel, (#[trigger] rows[i]).record)
        && exists|k: int|
        0 <= k < store.records.len() && (#[trigger] store.records[k]).1 == rows[i].record by {
        let c = choose|c: int| 0 <= c < recs.len() && recs[c] == rows[i].record;
        assert(keeps(sel, recs[c]));
    }
}

/// A lexical clause scores and does not prune: without a cap, each record of the table is a row.
pub proof fn law_lexical_clause_keeps_every_row(g: Scoring, store: StoreV, sel: SelV)
    requires
        sel.filter is Some,
        sel.filter->0 is Bm25,
        row_cap(sel) is None,
    ensures
        select_rows(g, store, sel).len() == candidates(
            store.records,
            sel,
            store.records.len() as int,
        ).len(),
{
    let recs = candidates(store.records, sel, store.records.len() as int);
    if let Some(FilV::Bm25 { field, query, .. }) = sel.filter {
        law_order_is_a_permutation(false, lexical_rows(g, sel, recs, field, query));
    }
}

/// A nearest-neighbour clause keeps the `k` most similar rows: each row that it keeps comes before
/// each row that it drops.
pub proof fn law_nearest_rows_are_kept(g: Scoring, sel: SelV, recs: Seq<RecV>)
    requires
        sel.knn is Some,
        forall|i: int, j: int|
            0 <= i < j < recs.len() ==> (#[trigger] recs[i]).id != (#[trigger] recs[j]).id,
        forall|i: int|
            0 <= i < recs.len() ==> !number::single_is_nan(
                similarity(g, sel, #[trigger] recs[i]),
            ),
    ensures
        ({
            let all = in_order(
                false,
                rescored(unscored(recs), similarities(g, sel, unscored(recs))),
            );
            let kept = nearest_rows(g, sel, recs);
            &&& kept.len() == (if sel.knn->0.k < recs.len() {
                sel.knn->0.k as nat
            } else {
                recs.len()
            })
            &&& kept == all.take(kept.len() as int)
            &&& forall|i: int, j: int|
                0 <= i < kept.len() <= j < all.len() ==> score_before(
                    #[trigger] kept[i],
                    #[trigger] all[j],
                )
        }),
{
    let rows = rescored(unscored(recs), similarities(g, sel, unscored(recs)));
    assert forall|i: int, j: int| 0 <= i < j < rows.len() implies (#[trigger] rows[i]).record.id
        != (#[trigger] rows[j]).record.id by {
        assert(rows[i].record == recs[i] && rows[j].record == recs[j]);
    }
    assert forall|i: int| 0 <= i < rows.len() implies !number::single_is_nan(
        (#[trigger] rows[i]).score,
    ) by {
        assert(rows[i].score == similarity(g, sel, recs[i]));
    }
    law_rows_are_totally_ordered(false, rows);
    law_order_is_a_permutation(false, rows);
    let all = in_order(false, rows);
    let kept = nearest_rows(g, sel, recs);
    assert(kept =~= all.take(kept.len() as int));
    assert forall|i: int, j: int| 0 <= i < kept.len() <= j < all.len() implies score_before(
        #[trigger] kept[i],
        #[trigger] all[j],
    ) by {
        assert(kept[i] == all[i]);
        assert(row_before(false, all[i], all[j]));
    }
}

proof fn lemma_ahead_bound(rows: Seq<RowV>, i: int, n: int)
    requires
        0 <= n,
    ensures
        0 <= ahead(rows, i, n) <= n,
    decreases n,
{
    if n > 0 {
        lemma_ahead_bound(rows, i, n - 1);
    }
}

proof fn lemma_ahead_grows(rows: Seq<RowV>, i: int, j: int, n: int)
    requires
        0 <= n <= rows.len(),
        0 <= i < rows.len(),
        0 <= j < rows.len(),
        no_nan(rows),
        score_before(rows[i], rows[j]),
    ensures
        ahead(rows, j, n) >= ahead(rows, i, n) + if i < n {
            1int
        } else {
            0
        },
    decreases n,
{
    if n > 0 {
        lemma_ahead_grows(rows, i, j, n - 1);
        law_row_order_is_total(false, rows[n - 1], rows[i], rows[j]);
        law_row_order_is_total(false, rows[i], rows[i], rows[i]);
    }
}

/// Ranks run from 1 to the number of rows, and a row that comes before another has the smaller
/// rank. So a row that is ahead of another in both rankings of a hybrid selection goes into the
/// fusion with the smaller of both ranks.
pub proof fn law_ranks_follow_the_order(rows: Seq<RowV>, i: int, j: int)
    requires
        no_nan(rows),
        0 <= i < rows.len(),
        0 <= j < rows.len(),
    ensures
        1 <= rank(rows, i) <= rows.len(),
        score_before(rows[i], rows[j]) ==> rank(rows, i) < rank(rows, j),
{
    let n = rows.len() as int;
    lemma_ahead_bound(rows, i, n);
    lemma_ahead_self(rows, i, n);
    if score_before(rows[i], rows[j]) {
        lemma_ahead_grows(rows, i, j, n);
    }
}

proof fn lemma_ahead_self(rows: Seq<RowV>, i: int, n: int)
    requires
        0 <= n <= rows.len(),
        0 <= i < rows.len(),
        no_nan(rows),
    ensures
        ahead(rows, i, n) <= n - if i < n {
            1int
        } else {
            0
        },
    decreases n,
{
    if n > 0 {
        lemma_ahead_self(rows, i, n - 1);
        law_row_order_is_total(false, rows[i], rows[i], rows[i]);
    }
}

// ---------------------------------------------------------------------------------------------
// Laws on results: caps, rows, order and scores, in terms of the clauses and the store
// ---------------------------------------------------------------------------------------------
proof fn lemma_same_candidates(recs: Seq<(RidV, RecV)>, a: SelV, b: SelV, n: int)
    requires
        a.table == b.table,
        forall|r: RecV| #[trigger] passes(r, a.filter) == passes(r, b.filter),
    ensures
        candidates(recs, a, n) == candidates(recs, b, n),
    decreases n,
{
    if n > 0 {
        lemma_same_candidates(recs, a, b, n - 1);
        assert(passes(recs[n - 1].1, a.filter) == passes(recs[n - 1].1, b.filter));
    }
}

/// `LIMIT n` gives the first `n` rows of the same selection without the limit, or all where there
/// are no more, whatever its other clauses are. So no result has more than `n` rows.
pub proof fn law_limit_keeps_the_first_rows(g: Scoring, store: StoreV, sel: SelV, n: usize)
    requires
        sel.limit == Some(n),
    ensures
        select_rows(g, store, sel).len() <= n,
        ({
            let all = select_rows(g, store, SelV { limit: None, ..sel });
            select_rows(g, store, sel) == all.take(
                if n < all.len() {
                    n as int
                } else {
                    all.len() as int
                },
            )
        }),
{
    let free = SelV { limit: None, ..sel };
    let len = store.records.len() as int;
    let recs = candidates(store.records, sel, len);
    lemma_same_candidates(store.records, sel, free, len);
    let rows = unscored(recs);
    assert(similarities(g, sel, rows) =~= similarities(g, free, rows));
    let all = select_rows(g, store, free);
    match sel.filter {
        Some(FilV::Bm25 { field, query, .. }) => {
            assert(lexical_rows(g, sel, recs, field, query) == lexical_rows(
                g,
                free,
                recs,
                field,
                query,
            ));
        },
        _ => {
            let near = nearest_rows(g, sel, recs);
            assert(near == nearest_rows(g, free, recs));
            assert(order_scores(g, store, sel, near) =~= order_scores(g, store, free, near));
        },
    }
    assert(select_rows(g, store, sel) =~= all.take(
        if n < all.len() {
            n as int
        } else {
            all.len() as int
        },
    ));
}

/// A nearest-neighbour clause with `k` gives at most `k` rows, and so does a lexical clause with `k`.
pub proof fn law_k_bounds_the_rows(g: Scoring, store: StoreV, sel: SelV)
    ensures
        sel.knn matches Some(knn) ==> select_rows(g, store, sel).len() <= knn.k,
        sel.filter matches Some(FilV::Bm25 { k: Some(k), .. }) ==> select_rows(g, store, sel).len()
            <= k,
{
}

/// A lexical clause with `k` gives the first `k` rows of the same selection without that `k`.
pub proof fn law_lexical_k_keeps_the_first_rows(
    g: Scoring,
    store: StoreV,
    sel: SelV,
    field: Seq<char>,
    query: Seq<char>,
    k: usize,
)
    requires
        sel.filter == Some(FilV::Bm25 { field, query, k: Some(k) }),
    ensures
        ({
            let all = select_rows(
                g,
                store,
                SelV { filter: Some(FilV::Bm25 { field, query, k: None }), ..sel },
            );
            select_rows(g, store, sel) == all.take(
                if k < all.len() {
                    k as int
                } else {
                    all.len() as int
                },
            )
        }),
{
    let free = SelV { filter: Some(FilV::Bm25 { field, query, k: None }), ..sel };
    let len = store.records.len() as int;
    let recs = candidates(store.records, sel, len);
    lemma_same_candidates(store.records, sel, free, len);
    let rows = unscored(recs);
    assert(similarities(g, sel, rows) =~= similarities(g, free, rows));
    assert(lexical_rows(g, sel, recs, field, query) == lexical_rows(g, free, recs, field, query));
    let all = select_rows(g, store, free);
    assert(select_rows(g, store, sel) =~= all.take(
        if k < all.len() {
            k as int
        } else {
            all.len() as int
        },
    ));
}

/// The scored rows of a selection, before they are ordered and cut off.
spec fn pool(g: Scoring, store: StoreV, sel: SelV) -> Seq<RowV> {
    let recs = candidates(store.records, sel, store.records.len() as int);
    match sel.filter {
        Some(FilV::Bm25 { field, query, .. }) => lexical_rows(g, sel, recs, field, query),
        _ => {
            let rows = nearest_rows(g, sel, recs);
            rescored(rows, order_scores(g, store, sel, rows))
        },
    }
}

proof fn lemma_sorted_distinct(recency: bool, s: Seq<RowV>, n: int)
    requires
        0 <= n <= s.len(),
        distinct_ids(s),
    ensures
        distinct_ids(sorted(recency, s, n)),
    decreases n,
{
    if n > 0 {
        lemma_sorted_distinct(recency, s, n - 1);
        lemma_sorted(recency, s, n - 1);
        let before = sorted(recency, s, n - 1);
        let p = lemma_placed(recency, before, s[n - 1]);
        let after = sorted(recency, s, n);
        assert(after == before.insert(p, s[n - 1]));
        assert forall|i: int| 0 <= i < before.len() implies (#[trigger] before[i]).record.id
            != s[n - 1].record.id by {
            let head = s.take(n - 1);
            let j = choose|j: int| 0 <= j < head.len() && head[j] == before[i];
            assert(s[j] == before[i]);
        }
        assert forall|i: int, j: int| 0 <= i < j < after.len() implies (
        #[trigger] after[i]).record.id != (#[trigger] after[j]).record.id by {
            let a = if i < p {
                i
            } else {
                i - 1
            };
            let b = if j < p {
                j
            } else {
                j - 1
            };
            if i != p && j != p {
                assert(after[i] == before[a] && after[j] == before[b]);
            } else if i == p {
                assert(after[j] == before[b]);
            } else {
                assert(after[i] == before[a]);
            }
        }
    }
}

proof fn lemma_in_order_members(recency: bool, s: Seq<RowV>)
    ensures
        in_order(recency, s).len() == s.len(),
        forall|r: RowV| #[trigger] in_order(recency, s).contains(r) <==> s.contains(r),
{
    broadcast use vstd::seq_lib::group_to_multiset_ensures;

    law_order_is_a_permutation(recency, s);
    let t = in_order(recency, s);
    assert forall|r: RowV| #[trigger] t.contains(r) <==> s.contains(r) by {
        assert(t.contains(r) <==> t.to_multiset().count(r) > 0);
        assert(s.contains(r) <==> s.to_multiset().count(r) > 0);
    }
}

/// Rows of `recs` that are scored anew hold those records, in that order.
proof fn lemma_rescored_ids(recs: Seq<RecV>, scores: Seq<u32>)
    requires
        forall|i: int, j: int|
            0 <= i < j < recs.len() ==> (#[trigger] recs[i]).id != (#[trigger] recs[j]).id,
    ensures
        distinct_ids(rescored(unscored(recs), scores)),
{
    let rows = rescored(unscored(recs), scores);
    assert forall|i: int, j: int| 0 <= i < j < rows.len() implies (#[trigger] rows[i]).record.id
        != (#[trigger] rows[j]).record.id by {
        assert(rows[i].record == recs[i] && rows[j].record == recs[j]);
    }
}

/// No record stands twice in the pool, and each row of it holds a record that the clauses keep, with
/// the score that the order gives it where there is no lexical clause.
proof fn lemma_pool(g: Scoring, store: StoreV, sel: SelV)
    requires
        ir::store_wf(store),
    ensures
        ({
            let p = pool(g, store, sel);
            let recs = candidates(store.records, sel, store.records.len() as int);
            &&& distinct_ids(p)
            &&& drawn_from(p, recs)
            &&& sel.knn is None || (sel.filter is Some && sel.filter->0 is Bm25) ==> p.len()
                == recs.len() && forall|i: int|
                0 <= i < recs.len() ==> (#[trigger] p[i]).record == recs[i]
            &&& !(sel.filter is Some && sel.filter->0 is Bm25) ==> forall|i: int|
                0 <= i < p.len() ==> (#[trigger] p[i]).score == order_score(
                    g,
                    store,
                    sel,
                    RowV { record: p[i].record, score: similarity(g, sel, p[i].record) },
                )
        }),
{
    let n = store.records.len() as int;
    let recs = candidates(store.records, sel, n);
    let p = pool(g, store, sel);
    lemma_candidates_ascend(store, sel, n);
    assert forall|i: int, j: int| 0 <= i < j < recs.len() implies (#[trigger] recs[i]).id != (
    #[trigger] recs[j]).id by {
        RecordId::key_lt_irreflexive(recs[i].id);
    }
    match sel.filter {
        Some(FilV::Bm25 { field, query, .. }) => {
            let ix = bm25::index_of(field, recs, recs.len() as int);
            let lex = lexicals(g, ix, bm25::words(query), unscored(recs));
            let fused = fusions(g, unscored(recs), lex, similarities(g, sel, unscored(recs)));
            lemma_unscored_drawn(recs, lex);
            lemma_unscored_drawn(recs, fused);
            lemma_rescored_ids(recs, lex);
            lemma_rescored_ids(recs, fused);
        },
        _ => {
            let sims = similarities(g, sel, unscored(recs));
            let near = rescored(unscored(recs), sims);
            lemma_unscored_drawn(recs, sims);
            lemma_rescored_ids(recs, sims);
            lemma_in_order_drawn(false, near, recs);
            lemma_in_order_members(false, near);
            lemma_sorted_distinct(false, near, near.len() as int);
            let picked = nearest_rows(g, sel, recs);
            assert forall|i: int| 0 <= i < picked.len() implies (#[trigger] picked[i]).score
                == similarity(g, sel, picked[i].record) by {
                let all = in_order(false, near);
                if sel.knn is Some {
                    assert(all.contains(all[i]));
                    assert(near.contains(picked[i]));
                }
                assert(near.contains(picked[i])) by {
                    if sel.knn is None {
                        assert(near[i] == picked[i]);
                    }
                }
                let j = choose|j: int| 0 <= j < near.len() && near[j] == picked[i];
                assert(near[j].score == similarity(g, sel, recs[j]));
            }
            assert forall|i: int, j: int| 0 <= i < j < p.len() implies (
            #[trigger] p[i]).record.id != (#[trigger] p[j]).record.id by {
                assert(p[i].record == picked[i].record && p[j].record == picked[j].record);
            }
            assert forall|i: int| 0 <= i < p.len() implies recs.contains(
                (#[trigger] p[i]).record,
            ) by {
                assert(p[i].record == picked[i].record);
            }
            assert forall|i: int| 0 <= i < p.len() implies (#[trigger] p[i]).score == order_score(
                g,
                store,
                sel,
                RowV { record: p[i].record, score: similarity(g, sel, p[i].record) },
            ) by {
                assert(p[i].score == order_score(g, store, sel, picked[i]));
                assert(picked[i] == (RowV {
                    record: p[i].record,
                    score: similarity(g, sel, p[i].record),
                }));
            }
        },
    }
}

/// Every row is a row of the pool, each once; and where nothing caps the rows, all of the pool is.
proof fn lemma_rows_of_pool(g: Scoring, store: StoreV, sel: SelV)
    requires
        ir::store_wf(store),
    ensures
        ({
            let rows = select_rows(g, store, sel);
            let p = pool(g, store, sel);
            &&& distinct_ids(rows)
            &&& forall|i: int| 0 <= i < rows.len() ==> p.contains(#[trigger] rows[i])
            &&& row_cap(sel) is None ==> forall|r: RowV| #[trigger] p.contains(r) ==> rows.contains(r)
        }),
{
    let rows = select_rows(g, store, sel);
    let p = pool(g, store, sel);
    lemma_pool(g, store, sel);
    lemma_in_order_members(false, p);
    lemma_in_order_members(true, p);
    lemma_sorted_distinct(false, p, p.len() as int);
    lemma_sorted_distinct(true, p, p.len() as int);
    assert forall|i: int| 0 <= i < rows.len() implies p.contains(#[trigger] rows[i]) by {
        let a = in_order(false, p);
        let b = in_order(true, p);
        if rows[i] == a[i] {
            assert(a.contains(a[i]));
        } else if rows[i] == b[i] {
            assert(b.contains(b[i]));
        } else {
            assert(rows[i] == p[i]);
        }
    }
}

/// What a row of a selection is: a stored record, as it is stored, of the selected table, that meets
/// the condition, each record at most once. Without a nearest-neighbour clause and a cap, each record
/// that is so is a row.
pub proof fn law_select_gives_what_its_clauses_ask_for(g: Scoring, store: StoreV, sel: SelV, id: RidV)
    requires
        ir::store_wf(store),
    ensures
        ({
            let rows = select_rows(g, store, sel);
            let stored = ordmap::lookup::<RecordId, RecV>(store.records, id);
            let wanted = stored is Some && id.table == sel.table && match sel.filter {
                None => true,
                Some(FilV::HasEmbedding) => stored->0.embedding is Some,
                Some(FilV::FieldEquals { field, value }) => ordmap::lookup::<String, ValV>(
                    stored->0.body,
                    field,
                ) matches Some(v) && ir::value_eq(v, value),
                Some(FilV::Bm25 { .. }) => true,
            };
            &&& forall|i: int, j: int|
                0 <= i < j < rows.len() ==> (#[trigger] rows[i]).record.id != (
                #[trigger] rows[j]).record.id
            &&& forall|i: int|
                0 <= i < rows.len() && (#[trigger] rows[i]).record.id == id ==> wanted
                    && rows[i].record == stored->0
            &&& sel.knn is None && sel.limit is None && match sel.filter {
                Some(FilV::Bm25 { k, .. }) => k is None,
                _ => true,
            } && wanted ==> exists|i: int|
                0 <= i < rows.len() && (#[trigger] rows[i]).record.id == id
        }),
{
    let n = store.records.len() as int;
    let recs = candidates(store.records, sel, n);
    let rows = select_rows(g, store, sel);
    let p = pool(g, store, sel);
    lemma_pool(g, store, sel);
    lemma_rows_of_pool(g, store, sel);
    lemma_candidates(store.records, sel, n);
    let stored = ordmap::lookup::<RecordId, RecV>(store.records, id);
    assert forall|i: int| 0 <= i < rows.len() && (#[trigger] rows[i]).record.id == id implies stored
        == Some(rows[i].record) && keeps(sel, rows[i].record) by {
        let j = choose|j: int| 0 <= j < p.len() && p[j] == rows[i];
        assert(recs.contains(p[j].record));
        let c = choose|c: int| 0 <= c < recs.len() && recs[c] == p[j].record;
        assert(keeps(sel, recs[c]));
        let k = choose|k: int| 0 <= k < n && (#[trigger] store.records[k]).1 == recs[c];
        assert(store.records[k].0 == id);
        ordmap::lemma_found::<RecordId, RecV>(store.records, k);
    }
    if stored is Some && keeps(sel, stored->0) && sel.knn is None && row_cap(sel) is None {
        let k = ordmap::slot::<RecordId, RecV>(store.records, id, 0);
        ordmap::lemma_slot::<RecordId, RecV>(store.records, id, 0);
        assert(store.records[k].1 == stored->0 && store.records[k].0 == id);
        assert(keeps(sel, store.records[k].1));
        let c = choose|c: int| 0 <= c < recs.len() && recs[c] == store.records[k].1;
        assert(p[c].record == recs[c]);
        assert(p.contains(p[c]));
        assert(rows.contains(p[c]));
        let i = choose|i: int| 0 <= i < rows.len() && rows[i] == p[c];
        assert(rows[i].record.id == id);
    }
    if stored is Some {
        let k = ordmap::slot::<RecordId, RecV>(store.records, id, 0);
        ordmap::lemma_slot::<RecordId, RecV>(store.records, id, 0);
        assert(store.records[k].1.id == id);
    }
}

/// The order of the rows of a selection. A lexical clause orders by score, whatever `ORDER BY` says;
/// else `ORDER BY recency` puts the most recent record first; else any other `ORDER BY`, or a
/// nearest-neighbour clause, orders by score, the highest first. Where these do not decide, and where
/// there is no such clause, ids ascend. By score this is said of scores without a NaN.
pub proof fn law_select_orders_its_rows(g: Scoring, store: StoreV, sel: SelV)
    requires
        ir::store_wf(store),
        forall|t: TaskV| !number::single_is_nan(#[trigger] g(t)),
    ensures
        ({
            let rows = select_rows(g, store, sel);
            let lexical = sel.filter is Some && sel.filter->0 is Bm25;
            &&& !lexical && sel.order == Some(Order::Recency) ==> forall|i: int, j: int|
                0 <= i < j < rows.len() ==> (#[trigger] rows[i]).record.created_at > (
                #[trigger] rows[j]).record.created_at || (rows[i].record.created_at
                    == rows[j].record.created_at && ir::rid_lt(
                    rows[i].record.id,
                    rows[j].record.id,
                ))
            &&& lexical || (sel.order is Some && sel.order != Some(Order::Recency)) || (sel.order is None
                && sel.knn is Some) ==> forall|i: int, j: int|
                0 <= i < j < rows.len() ==> number::single_gt(
                    (#[trigger] rows[i]).score,
                    (#[trigger] rows[j]).score,
                ) || (!number::single_gt(rows[j].score, rows[i].score) && ir::rid_lt(
                    rows[i].record.id,
                    rows[j].record.id,
                ))
            &&& !lexical && sel.order is None && sel.knn is None ==> forall|i: int, j: int|
                0 <= i < j < rows.len() ==> ir::rid_lt(
                    (#[trigger] rows[i]).record.id,
                    (#[trigger] rows[j]).record.id,
                )
        }),
{
    let n = store.records.len() as int;
    let recs = candidates(store.records, sel, n);
    let p = pool(g, store, sel);
    let rows = select_rows(g, store, sel);
    let lexical = sel.filter is Some && sel.filter->0 is Bm25;
    lemma_pool(g, store, sel);
    lemma_candidates_ascend(store, sel, n);
    assert(no_nan(p)) by {
        assert forall|i: int| 0 <= i < p.len() implies !number::single_is_nan(
            (#[trigger] p[i]).score,
        ) by {}
    }
    law_rows_are_totally_ordered(false, p);
    law_rows_are_totally_ordered(true, p);
    let by_score = in_order(false, p);
    let by_age = in_order(true, p);
    if lexical || (sel.order is Some && sel.order != Some(Order::Recency)) || (sel.order is None
        && sel.knn is Some) {
        assert forall|i: int, j: int| 0 <= i < j < rows.len() implies score_before(
            #[trigger] rows[i],
            #[trigger] rows[j],
        ) by {
            assert(rows[i] == by_score[i] && rows[j] == by_score[j]);
            assert(row_before(false, by_score[i], by_score[j]));
        }
    } else if sel.order == Some(Order::Recency) {
        assert forall|i: int, j: int| 0 <= i < j < rows.len() implies recency_before(
            #[trigger] rows[i],
            #[trigger] rows[j],
        ) by {
            assert(rows[i] == by_age[i] && rows[j] == by_age[j]);
            assert(row_before(true, by_age[i], by_age[j]));
        }
    } else {
        assert forall|i: int, j: int| 0 <= i < j < rows.len() implies ir::rid_lt(
            (#[trigger] rows[i]).record.id,
            (#[trigger] rows[j]).record.id,
        ) by {
            assert(rows[i] == p[i] && rows[j] == p[j]);
            assert(p[i].record == recs[i] && p[j].record == recs[j]);
        }
    }
}

/// The score of a row without a lexical clause: what `ORDER BY` names, computed from the votes on the
/// record and from its similarity to the query vector; the similarity itself where `ORDER BY` names
/// none of these. The similarity is `0.0` without a query vector or an embedding.
pub proof fn law_select_scores_its_rows(g: Scoring, store: StoreV, sel: SelV, i: int)
    requires
        ir::store_wf(store),
        !(sel.filter is Some && sel.filter->0 is Bm25),
        0 <= i < select_rows(g, store, sel).len(),
    ensures
        ({
            let row = select_rows(g, store, sel)[i];
            let id = row.record.id;
            let near = if sel.knn is Some && row.record.embedding is Some {
                g(
                    TaskV::Similarity {
                        embedding: row.record.embedding->0,
                        query: sel.knn->0.query,
                    },
                )
            } else {
                0u32
            };
            let weights = votes::vote_weights(store.edges, id);
            &&& sel.order is None ==> row.score == near
            &&& sel.order == Some(Order::Similarity) ==> row.score == near
            &&& sel.order == Some(Order::Recency) ==> row.score == near
            &&& sel.order == Some(Order::Votes) ==> row.score == g(
                TaskV::Count(votes::net_votes(store.edges, id)),
            )
            &&& sel.order == Some(Order::Score) ==> row.score == g(TaskV::Mean { weights })
            &&& sel.order == Some(Order::Feedback) ==> row.score == g(
                TaskV::Feedback { votes: votes::vote_ages(store.edges, id) },
            )
            &&& sel.order == Some(Order::Salience) && sel.knn is Some ==> row.score == g(
                TaskV::Salience { similarity: near, weights },
            )
            &&& sel.order == Some(Order::Salience) && sel.knn is None ==> row.score == g(
                TaskV::Normalized { weights },
            )
        }),
{
    let p = pool(g, store, sel);
    lemma_pool(g, store, sel);
    lemma_rows_of_pool(g, store, sel);
    let row = select_rows(g, store, sel)[i];
    assert(p.contains(row));
    let j = choose|j: int| 0 <= j < p.len() && p[j] == row;
    assert(p[j].score == row.score);
}

/// The score of a row under a lexical clause alone: what the words of the query find in the field of
/// the record, among the records that the clauses keep; `0.0` where they find nothing.
pub proof fn law_lexical_clause_scores_its_rows(
    g: Scoring,
    store: StoreV,
    sel: SelV,
    field: Seq<char>,
    query: Seq<char>,
    k: Option<usize>,
    i: int,
)
    requires
        ir::store_wf(store),
        sel.filter == Some(FilV::Bm25 { field, query, k }),
        sel.knn is None,
        0 <= i < select_rows(g, store, sel).len(),
    ensures
        ({
            let row = select_rows(g, store, sel)[i];
            let recs = candidates(store.records, sel, store.records.len() as int);
            let ix = bm25::index_of(field, recs, recs.len() as int);
            row.score == match bm25::relevance(ix, row.record.id, bm25::words(query)) {
                Some(terms) => g(TaskV::Relevance(terms)),
                None => 0u32,
            }
        }),
{
    let p = pool(g, store, sel);
    lemma_rows_of_pool(g, store, sel);
    let row = select_rows(g, store, sel)[i];
    assert(p.contains(row));
    let j = choose|j: int| 0 <= j < p.len() && p[j] == row;
    assert(p[j].score == row.score);
}

/// A nearest-neighbour clause keeps as many rows as it asks for, as far as there are records, and no
/// record that it drops is more similar to the query vector than one that it keeps; of equally
/// similar ones it keeps those with the smaller ids.
pub proof fn law_nearest_neighbours_are_the_most_similar(
    g: Scoring,
    store: StoreV,
    sel: SelV,
    i: int,
    id: RidV,
)
    requires
        ir::store_wf(store),
        forall|t: TaskV| !number::single_is_nan(#[trigger] g(t)),
        sel.knn is Some,
        sel.limit is None,
        !(sel.filter is Some && sel.filter->0 is Bm25),
        0 <= i < select_rows(g, store, sel).len(),
        ordmap::lookup::<RecordId, RecV>(store.records, id) is Some,
        id.table == sel.table,
        match sel.filter {
            Some(FilV::HasEmbedding) => ordmap::lookup::<RecordId, RecV>(
                store.records,
                id,
            )->0.embedding is Some,
            Some(FilV::FieldEquals { field, value }) => ordmap::lookup::<String, ValV>(
                ordmap::lookup::<RecordId, RecV>(store.records, id)->0.body,
                field,
            ) matches Some(v) && ir::value_eq(v, value),
            _ => true,
        },
        forall|j: int|
            0 <= j < select_rows(g, store, sel).len() ==> (#[trigger] select_rows(
                g,
                store,
                sel,
            )[j]).record.id != id,
    ensures
        ({
            let query = sel.knn->0.query;
            let kept = select_rows(g, store, sel)[i].record;
            let dropped = ordmap::lookup::<RecordId, RecV>(store.records, id)->0;
            let near = match kept.embedding {
                Some(v) => g(TaskV::Similarity { embedding: v, query }),
                None => 0u32,
            };
            let far = match dropped.embedding {
                Some(v) => g(TaskV::Similarity { embedding: v, query }),
                None => 0u32,
            };
            &&& select_rows(g, store, sel).len() == sel.knn->0.k
            &&& number::single_gt(near, far) || (!number::single_gt(far, near) && ir::rid_lt(
                kept.id,
                id,
            ))
        }),
{
    let n = store.records.len() as int;
    let recs = candidates(store.records, sel, n);
    let rows = select_rows(g, store, sel);
    let p = pool(g, store, sel);
    let k = sel.knn->0.k;
    let sims = similarities(g, sel, unscored(recs));
    let near = rescored(unscored(recs), sims);
    let all = in_order(false, near);
    let picked = nearest_rows(g, sel, recs);
    let dropped = ordmap::lookup::<RecordId, RecV>(store.records, id)->0;
    lemma_pool(g, store, sel);
    lemma_rows_of_pool(g, store, sel);
    lemma_candidates(store.records, sel, n);
    lemma_candidates_ascend(store, sel, n);
    assert forall|a: int, b: int| 0 <= a < b < recs.len() implies (#[trigger] recs[a]).id != (
    #[trigger] recs[b]).id by {
        RecordId::key_lt_irreflexive(recs[a].id);
    }
    law_nearest_rows_are_kept(g, sel, recs);
    lemma_in_order_members(false, near);
    lemma_in_order_members(false, p);
    lemma_in_order_members(true, p);
    let slot = ordmap::slot::<RecordId, RecV>(store.records, id, 0);
    ordmap::lemma_slot::<RecordId, RecV>(store.records, id, 0);
    assert(store.records[slot].1 == dropped && store.records[slot].0 == id && dropped.id == id);
    assert(keeps(sel, store.records[slot].1));
    let c = choose|c: int| 0 <= c < recs.len() && recs[c] == dropped;
    assert(near.contains(near[c]));
    assert(all.contains(near[c]));
    let d = choose|d: int| 0 <= d < all.len() && all[d] == near[c];
    assert(near[c].record == dropped);
    if d < picked.len() {
        assert(picked[d] == all[d]);
        assert(p[d].record.id == id);
        let ordered = in_order(sel.order == Some(Order::Recency), p);
        assert(p.contains(p[d]));
        assert(ordered.contains(p[d]));
        let j = choose|j: int| 0 <= j < ordered.len() && ordered[j] == p[d];
        assert(ordered.len() <= k);
        assert(rows[j] == ordered[j]);
    }
    assert(p.contains(rows[i]));
    let e = choose|e: int| 0 <= e < p.len() && p[e] == rows[i];
    assert(p[e].record == picked[e].record);
    assert(picked[e] == all[e]);
    assert(all.contains(all[e]));
    let f = choose|f: int| 0 <= f < near.len() && near[f] == all[e];
    assert(score_before(picked[e], all[d]));
}

/// The rank of a row is 1 more than the number of rows with a higher score, or with one that is not
/// lower and a smaller id.
pub proof fn law_rank_counts_the_rows_ahead(rows: Seq<RowV>, i: int)
    requires
        0 <= i < rows.len(),
    ensures
        rank(rows, i) == 1 + rows.filter(
            |r: RowV|
                number::single_gt(r.score, rows[i].score) || (!number::single_gt(
                    rows[i].score,
                    r.score,
                ) && ir::rid_lt(r.record.id, rows[i].record.id)),
        ).len(),
{
    lemma_ahead_filtered(rows, i, rows.len() as int);
    assert(rows.take(rows.len() as int) =~= rows);
}

proof fn lemma_ahead_filtered(rows: Seq<RowV>, i: int, n: int)
    requires
        0 <= i < rows.len(),
        0 <= n <= rows.len(),
    ensures
        ahead(rows, i, n) == rows.take(n).filter(
            |r: RowV|
                number::single_gt(r.score, rows[i].score) || (!number::single_gt(
                    rows[i].score,
                    r.score,
                ) && ir::rid_lt(r.record.id, rows[i].record.id)),
        ).len(),
    decreases n,
{
    reveal(Seq::filter);
    if n > 0 {
        lemma_ahead_filtered(rows, i, n - 1);
        assert(rows.take(n).drop_last() =~= rows.take(n - 1));
        assert(rows.take(n).last() == rows[n - 1]);
    }
}

/// The score of a row under a lexical and a nearest-neighbour clause together: the fusion of its rank
/// by lexical score and its rank by similarity, both among the records that the clauses keep.
pub proof fn law_hybrid_selection_fuses_two_ranks(
    g: Scoring,
    store: StoreV,
    sel: SelV,
    field: Seq<char>,
    query: Seq<char>,
    k: Option<usize>,
    i: int,
)
    requires
        ir::store_wf(store),
        sel.filter == Some(FilV::Bm25 { field, query, k }),
        sel.knn is Some,
        0 <= i < select_rows(g, store, sel).len(),
    ensures
        ({
            let row = select_rows(g, store, sel)[i];
            let recs = candidates(store.records, sel, store.records.len() as int);
            let ix = bm25::index_of(field, recs, recs.len() as int);
            let by_words = Seq::new(
                recs.len(),
                |j: int|
                    RowV {
                        record: recs[j],
                        score: match bm25::relevance(ix, recs[j].id, bm25::words(query)) {
                            Some(terms) => g(TaskV::Relevance(terms)),
                            None => 0u32,
                        },
                    },
            );
            let by_vector = Seq::new(
                recs.len(),
                |j: int|
                    RowV {
                        record: recs[j],
                        score: match recs[j].embedding {
                            Some(v) => g(
                                TaskV::Similarity { embedding: v, query: sel.knn->0.query },
                            ),
                            None => 0u32,
                        },
                    },
            );
            exists|c: int|
                0 <= c < recs.len() && #[trigger] recs[c] == row.record && row.score == g(
                    TaskV::Fusion { lexical: rank(by_words, c), vector: rank(by_vector, c) },
                )
        }),
{
    let p = pool(g, store, sel);
    lemma_rows_of_pool(g, store, sel);
    let row = select_rows(g, store, sel)[i];
    assert(p.contains(row));
    let c = choose|j: int| 0 <= j < p.len() && p[j] == row;
    let recs = candidates(store.records, sel, store.records.len() as int);
    let ix = bm25::index_of(field, recs, recs.len() as int);
    let by_words = Seq::new(
        recs.len(),
        |j: int|
            RowV {
                record: recs[j],
                score: match bm25::relevance(ix, recs[j].id, bm25::words(query)) {
                    Some(terms) => g(TaskV::Relevance(terms)),
                    None => 0u32,
                },
            },
    );
    let by_vector = Seq::new(
        recs.len(),
        |j: int|
            RowV {
                record: recs[j],
                score: match recs[j].embedding {
                    Some(v) => g(TaskV::Similarity { embedding: v, query: sel.knn->0.query }),
                    None => 0u32,
                },
            },
    );
    let rows = unscored(recs);
    assert(rescored(rows, lexicals(g, ix, bm25::words(query), rows)) =~= by_words);
    assert(rescored(rows, similarities(g, sel, rows)) =~= by_vector);
    assert(recs[c] == row.record);
}

} // verus!
