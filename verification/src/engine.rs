//! The engine: statements and plans on a store.
//!
//! A plan is a transaction: either all of its statements take effect, or the store stays as it was.
use vstd::prelude::*;

use crate::error::Error;
#[allow(unused_imports)]
use crate::error::ErrorV;
use crate::ir;
use crate::ir::{MatchPath, Record, RecordId, RelationEdge, Select, Statement, Store};
#[allow(unused_imports)]
use crate::ir::{EdgeV, MatchDirection, PathV, RecV, RidV, SelV, StepV, StmtV, StoreV};
use crate::ordmap;
use crate::ordmap::{Dup, Key};
use crate::score;
use crate::score::ScoreTask;
#[allow(unused_imports)]
use crate::score::Scoring;
use crate::select;
use crate::select::ScoredRecord;
#[allow(unused_imports)]
use crate::select::RowV;
use crate::text;
use crate::walk;

verus! {

/// What produced a result.
#[derive(Debug, PartialEq)]
pub enum QueryKind {
    Select(Select),
    Match(MatchPath),
    Closure(MatchPath),
}

/// The result of one reading statement.
#[derive(Debug, PartialEq)]
pub struct QueryResult {
    pub kind: QueryKind,
    pub rows: Vec<ScoredRecord>,
}

#[verifier::ext_equal]
pub enum KindV {
    Select(SelV),
    Match(PathV),
    Closure(PathV),
}

#[verifier::ext_equal]
pub struct ResV {
    pub kind: KindV,
    pub rows: Seq<RowV>,
}

impl View for QueryKind {
    type V = KindV;

    open spec fn view(&self) -> KindV {
        match *self {
            QueryKind::Select(sel) => KindV::Select(sel@),
            QueryKind::Match(path) => KindV::Match(path@),
            QueryKind::Closure(path) => KindV::Closure(path@),
        }
    }
}

impl View for QueryResult {
    type V = ResV;

    open spec fn view(&self) -> ResV {
        ResV { kind: self.kind@, rows: ordmap::views(self.rows@) }
    }
}

impl Clone for QueryKind {
    fn clone(&self) -> (r: Self)
        ensures
            r@ == self@,
    {
        match self {
            QueryKind::Select(sel) => QueryKind::Select(sel.dup()),
            QueryKind::Match(path) => QueryKind::Match(path.dup()),
            QueryKind::Closure(path) => QueryKind::Closure(path.dup()),
        }
    }
}

impl Clone for QueryResult {
    fn clone(&self) -> (r: Self)
        ensures
            r@ == self@,
    {
        QueryResult { kind: self.kind.clone(), rows: ordmap::vec_dup(&self.rows) }
    }
}

// ---------------------------------------------------------------------------------------------
// Statements
// ---------------------------------------------------------------------------------------------
/// What is wrong with inserting `rec`: its table declares a dimension that its embedding has not.
pub open spec fn insert_fault(s: StoreV, rec: RecV) -> Option<ErrorV> {
    match (ordmap::lookup::<String, usize>(s.vector_dims, rec.id.table), rec.embedding) {
        (Some(expected), Some(v)) => if v.len() != expected {
            Some(
                ErrorV::EmbeddingDimMismatch {
                    table: rec.id.table,
                    expected,
                    actual: v.len() as usize,
                },
            )
        } else {
            None
        },
        _ => None,
    }
}

/// The edge starts or ends at `id`.
pub open spec fn at_record(e: EdgeV, id: RidV) -> bool {
    e.from == id || e.to == id
}

/// The first `n` edges, without those at `id`.
pub open spec fn edges_without(edges: Seq<EdgeV>, id: RidV, n: int) -> Seq<EdgeV>
    decreases n,
{
    if n <= 0 {
        Seq::empty()
    } else if at_record(edges[n - 1], id) {
        edges_without(edges, id, n - 1)
    } else {
        edges_without(edges, id, n - 1).push(edges[n - 1])
    }
}

/// The store behind a statement that has no fault. Reading changes nothing.
pub open spec fn store_after(s: StoreV, stmt: StmtV) -> StoreV {
    match stmt {
        StmtV::CreateTable { table, vector_dim } => StoreV {
            vector_dims: match vector_dim {
                Some(dim) => ordmap::put::<String, usize>(s.vector_dims, table, dim),
                None => ordmap::without::<String, usize>(s.vector_dims, table),
            },
            ..s
        },
        StmtV::Insert(rec) => ir::with_record(s, rec),
        StmtV::Relate(edge) => StoreV { edges: s.edges.push(edge), ..s },
        StmtV::Forget { id } => StoreV {
            records: ordmap::without::<RecordId, RecV>(s.records, id),
            edges: edges_without(s.edges, id, s.edges.len() as int),
            vector_dims: s.vector_dims,
        },
        StmtV::Select(_) => s,
        StmtV::Match(_) => s,
        StmtV::Closure(_) => s,
    }
}

/// What is wrong with a statement on a store, if anything; only an insertion can fail.
pub open spec fn exec_fault(s: StoreV, stmt: StmtV) -> Option<ErrorV> {
    match stmt {
        StmtV::Insert(rec) => insert_fault(s, rec),
        _ => None,
    }
}

/// What a statement returns: the rows it reads, or nothing.
pub open spec fn query_result(g: Scoring, s: StoreV, stmt: StmtV) -> Option<ResV> {
    match stmt {
        StmtV::Select(sel) => Some(
            ResV { kind: KindV::Select(sel), rows: select::select_rows(g, s, sel) },
        ),
        StmtV::Match(path) => Some(
            ResV { kind: KindV::Match(path), rows: walk::match_rows(s, path) },
        ),
        StmtV::Closure(path) => Some(
            ResV { kind: KindV::Closure(path), rows: walk::closure_rows(g, s, path) },
        ),
        _ => None,
    }
}

fn validate_embedding(store: &Store, rec: &Record) -> (r: Result<(), Error>)
    ensures
        match r {
            Ok(_) => insert_fault(store@, rec@) is None,
            Err(e) => insert_fault(store@, rec@) == Some(e@),
        },
{
    if let Some(dim) = store.vector_dims.get(&rec.id.table) {
        if let Some(v) = &rec.embedding {
            if v.len() != *dim {
                return Err(
                    Error::EmbeddingDimMismatch {
                        table: text::owned(rec.id.table.as_str()),
                        expected: *dim,
                        actual: v.len(),
                    },
                );
            }
        }
    }
    Ok(())
}

fn drop_edges(edges: &Vec<RelationEdge>, id: &RecordId) -> (r: Vec<RelationEdge>)
    ensures
        ordmap::views(r@) == edges_without(ordmap::views(edges@), id@, edges@.len() as int),
{
    let ghost es = ordmap::views(edges@);
    let mut out: Vec<RelationEdge> = Vec::new();
    let mut i: usize = 0;
    assert(ordmap::views(out@) =~= Seq::<EdgeV>::empty());
    while i < edges.len()
        invariant
            i <= edges.len(),
            es == ordmap::views(edges@),
            ordmap::views(out@) == edges_without(es, id@, i as int),
        decreases edges.len() - i,
    {
        assert(es[i as int] == edges@[i as int]@);
        if !edges[i].from.same(id) && !edges[i].to.same(id) {
            let ghost before = ordmap::views(out@);
            out.push(edges[i].dup());
            assert(ordmap::views(out@) =~= before.push(es[i as int]));
        }
        i = i + 1;
    }
    out
}

/// Applies the effect of a statement to the store. A reading statement has none.
pub fn apply_statement(store: &mut Store, stmt: &Statement) -> (r: Result<(), Error>)
    ensures
        match r {
            Ok(_) => exec_fault(old(store)@, stmt@) is None && final(store)@ == store_after(
                old(store)@,
                stmt@,
            ),
            Err(e) => exec_fault(old(store)@, stmt@) == Some(e@) && final(store)@ == old(store)@,
        },
{
    match stmt {
        Statement::CreateTable { table, vector_dim } => {
            match vector_dim {
                Some(dim) => {
                    store.vector_dims.insert(text::owned(table.as_str()), *dim);
                },
                None => {
                    store.vector_dims.remove(table);
                },
            }
            Ok(())
        },
        Statement::Insert(rec) => {
            match validate_embedding(store, rec) {
                Ok(_) => {},
                Err(e) => return Err(e),
            }
            store.insert(rec.dup());
            Ok(())
        },
        Statement::Relate(edge) => {
            let ghost before = ordmap::views(store.edges@);
            store.edges.push(edge.dup());
            assert(ordmap::views(store.edges@) =~= before.push(edge@));
            Ok(())
        },
        Statement::Forget { id } => {
            let kept = drop_edges(&store.edges, id);
            store.records.remove(id);
            store.edges = kept;
            Ok(())
        },
        Statement::Select(_) => Ok(()),
        Statement::Match(_) => Ok(()),
        Statement::Closure(_) => Ok(()),
    }
}

fn read_statement<F: Fn(ScoreTask) -> u32>(store: &Store, stmt: &Statement, f: &F) -> (r: Option<
    QueryResult,
>)
    requires
        score::takes_tasks(*f),
    ensures
        forall|g: Scoring| #[trigger]
            score::scores_by(*f, g) ==> ordmap::opt_view(r) == query_result(g, store@, stmt@),
        r is Some == (stmt@ is Select || stmt@ is Match || stmt@ is Closure),
{
    match stmt {
        Statement::Select(sel) => {
            let rows = select::run_select(store, sel, f);
            Some(QueryResult { kind: QueryKind::Select(sel.dup()), rows })
        },
        Statement::Match(path) => {
            let rows = walk::run_match(store, path);
            Some(QueryResult { kind: QueryKind::Match(path.dup()), rows })
        },
        Statement::Closure(path) => {
            let rows = walk::run_closure(store, path, f);
            Some(QueryResult { kind: QueryKind::Closure(path.dup()), rows })
        },
        _ => None,
    }
}

/// Executes one statement: its effect on the store, and the rows it reads. `f` computes the scores.
pub fn execute_statement<F: Fn(ScoreTask) -> u32>(
    store: &mut Store,
    stmt: &Statement,
    f: &F,
) -> (r: Result<Option<QueryResult>, Error>)
    requires
        score::takes_tasks(*f),
    ensures
        match r {
            Ok(out) => {
                &&& exec_fault(old(store)@, stmt@) is None
                &&& final(store)@ == store_after(old(store)@, stmt@)
                &&& out is Some == (stmt@ is Select || stmt@ is Match || stmt@ is Closure)
                &&& forall|g: Scoring| #[trigger]
                    score::scores_by(*f, g) ==> ordmap::opt_view(out) == query_result(
                        g,
                        old(store)@,
                        stmt@,
                    )
            },
            Err(e) => exec_fault(old(store)@, stmt@) == Some(e@) && final(store)@ == old(store)@,
        },
{
    match apply_statement(store, stmt) {
        Ok(_) => {},
        Err(e) => return Err(e),
    }
    Ok(read_statement(store, stmt, f))
}

// ---------------------------------------------------------------------------------------------
// Plans
// ---------------------------------------------------------------------------------------------
/// The store behind the first `n` statements of a plan, none of which has a fault.
pub open spec fn store_at(s: StoreV, plan: Seq<StmtV>, n: int) -> StoreV
    decreases n,
{
    if n <= 0 {
        s
    } else {
        store_after(store_at(s, plan, n - 1), plan[n - 1])
    }
}

/// What is wrong with statement `i` of a plan that starts on `s`.
pub open spec fn plan_fault_at(s: StoreV, plan: Seq<StmtV>, i: int) -> Option<ErrorV> {
    exec_fault(store_at(s, plan, i), plan[i])
}

/// No statement of the plan has a fault.
pub open spec fn plan_runs(s: StoreV, plan: Seq<StmtV>) -> bool {
    forall|i: int| 0 <= i < plan.len() ==> #[trigger] plan_fault_at(s, plan, i) is None
}

/// `e` is the fault of the first statement of the plan that has one.
pub open spec fn plan_fails(s: StoreV, plan: Seq<StmtV>, e: ErrorV) -> bool {
    exists|i: int|
        0 <= i < plan.len() && #[trigger] plan_fault_at(s, plan, i) == Some(e) && forall|j: int|
            0 <= j < i ==> #[trigger] plan_fault_at(s, plan, j) is None
}

/// The results of the first `n` statements of a plan, one for each that reads.
pub open spec fn results_at(g: Scoring, s: StoreV, plan: Seq<StmtV>, n: int) -> Seq<ResV>
    decreases n,
{
    if n <= 0 {
        Seq::empty()
    } else {
        let before = results_at(g, s, plan, n - 1);
        match query_result(g, store_at(s, plan, n - 1), plan[n - 1]) {
            Some(res) => before.push(res),
            None => before,
        }
    }
}

/// The outcome of a plan: its results, or its error.
pub open spec fn outcome(r: Result<Vec<QueryResult>, Error>) -> Result<Seq<ResV>, ErrorV> {
    match r {
        Ok(results) => Ok(ordmap::views(results@)),
        Err(e) => Err(e@),
    }
}

/// Executing a plan on the store `s`, with `f` computing the scores, leaves the store `t` and gives
/// `out`: the results of a plan that runs, or the first fault of one that does not, which leaves the
/// store as it was.
pub open spec fn executed<F: Fn(ScoreTask) -> u32>(
    f: F,
    s: StoreV,
    plan: Seq<StmtV>,
    t: StoreV,
    out: Result<Seq<ResV>, ErrorV>,
) -> bool {
    match out {
        Ok(results) => {
            &&& plan_runs(s, plan)
            &&& t == store_at(s, plan, plan.len() as int)
            &&& forall|g: Scoring| #[trigger]
                score::scores_by(f, g) ==> results == results_at(g, s, plan, plan.len() as int)
        },
        Err(e) => plan_fails(s, plan, e) && t == s,
    }
}

/// Executes a plan as one transaction: the statements in order, one result for each that reads. If
/// one fails, its error is returned and the store stays as it was. `f` computes the scores.
pub fn execute_plan<F: Fn(ScoreTask) -> u32>(
    store: &mut Store,
    plan: &Vec<Statement>,
    f: &F,
) -> (r: Result<Vec<QueryResult>, Error>)
    requires
        score::takes_tasks(*f),
    ensures
        executed(*f, old(store)@, ordmap::views(plan@), final(store)@, outcome(r)),
{
    let ghost s = store@;
    let ghost stmts = ordmap::views(plan@);
    let mut work = store.dup();
    let mut results: Vec<QueryResult> = Vec::new();
    let mut i: usize = 0;
    assert(ordmap::views(results@) =~= Seq::<ResV>::empty());
    while i < plan.len()
        invariant
            score::takes_tasks(*f),
            i <= plan.len(),
            s == store@,
            s == old(store)@,
            stmts == ordmap::views(plan@),
            work@ == store_at(s, stmts, i as int),
            forall|j: int| 0 <= j < i ==> #[trigger] plan_fault_at(s, stmts, j) is None,
            forall|g: Scoring| #[trigger]
                score::scores_by(*f, g) ==> ordmap::views(results@) == results_at(
                    g,
                    s,
                    stmts,
                    i as int,
                ),
        decreases plan.len() - i,
    {
        assert(stmts[i as int] == plan@[i as int]@);
        let ghost before = ordmap::views(results@);
        match execute_statement(&mut work, &plan[i], f) {
            Ok(out) => {
                assert(plan_fault_at(s, stmts, i as int) is None);
                match out {
                    Some(res) => {
                        let ghost rv = res@;
                        results.push(res);
                        assert(ordmap::views(results@) =~= before.push(rv));
                    },
                    None => {},
                }
            },
            Err(e) => {
                assert(plan_fault_at(s, stmts, i as int) == Some(e@));
                return Err(e);
            },
        }
        i = i + 1;
    }
    *store = work;
    Ok(results)
}

// ---------------------------------------------------------------------------------------------
// Laws
// ---------------------------------------------------------------------------------------------
/// Every statement keeps the store in order: keys ascend, none occurs twice, and each record stands
/// under its own id.
pub proof fn law_statement_keeps_store_wf(s: StoreV, stmt: StmtV)
    requires
        ir::store_wf(s),
    ensures
        ir::store_wf(store_after(s, stmt)),
{
    let t = store_after(s, stmt);
    match stmt {
        StmtV::CreateTable { table, vector_dim } => match vector_dim {
            Some(dim) => {
                ordmap::lemma_put_ascending::<String, usize>(s.vector_dims, table, dim);
            },
            None => {
                ordmap::lemma_without_ascending::<String, usize>(s.vector_dims, table);
            },
        },
        StmtV::Insert(rec) => {
            ordmap::lemma_put_ascending::<RecordId, RecV>(s.records, rec.id, rec);
            ordmap::lemma_slot::<RecordId, RecV>(s.records, rec.id, 0);
            let p = ordmap::slot::<RecordId, RecV>(s.records, rec.id, 0);
            assert forall|i: int| 0 <= i < t.records.len() implies (#[trigger] t.records[i]).1.id
                == t.records[i].0 by {
                if ordmap::holds::<RecordId, RecV>(s.records, rec.id) {
                    if i != p {
                        assert(t.records[i] == s.records[i]);
                    }
                } else if i < p {
                    assert(t.records[i] == s.records[i]);
                } else if i > p {
                    assert(t.records[i] == s.records[i - 1]);
                }
            }
        },
        StmtV::Forget { id } => {
            ordmap::lemma_without_ascending::<RecordId, RecV>(s.records, id);
            let p = ordmap::slot::<RecordId, RecV>(s.records, id, 0);
            assert forall|i: int| 0 <= i < t.records.len() implies (#[trigger] t.records[i]).1.id
                == t.records[i].0 by {
                if ordmap::holds::<RecordId, RecV>(s.records, id) && i >= p {
                    assert(t.records[i] == s.records[i + 1]);
                } else {
                    assert(t.records[i] == s.records[i]);
                }
            }
        },
        _ => {},
    }
}

/// Every plan keeps the store in order.
pub proof fn law_plan_keeps_store_wf(s: StoreV, plan: Seq<StmtV>, n: int)
    requires
        ir::store_wf(s),
        0 <= n <= plan.len(),
    ensures
        ir::store_wf(store_at(s, plan, n)),
    decreases n,
{
    if n > 0 {
        law_plan_keeps_store_wf(s, plan, n - 1);
        law_statement_keeps_store_wf(store_at(s, plan, n - 1), plan[n - 1]);
    }
}

proof fn lemma_edges_without(edges: Seq<EdgeV>, id: RidV, n: int)
    requires
        0 <= n <= edges.len(),
    ensures
        forall|i: int|
            0 <= i < edges_without(edges, id, n).len() ==> !at_record(
                #[trigger] edges_without(edges, id, n)[i],
                id,
            ),
        forall|j: int|
            0 <= j < n && !at_record(#[trigger] edges[j], id) ==> edges_without(
                edges,
                id,
                n,
            ).contains(edges[j]),
        forall|e: EdgeV| #[trigger]
            edges_without(edges, id, n).contains(e) ==> edges.contains(e),
    decreases n,
{
    if n > 0 {
        lemma_edges_without(edges, id, n - 1);
        let before = edges_without(edges, id, n - 1);
        let after = edges_without(edges, id, n);
        if !at_record(edges[n - 1], id) {
            assert forall|j: int| 0 <= j < n && !at_record(
                #[trigger] edges[j],
                id,
            ) implies after.contains(edges[j]) by {
                if j < n - 1 {
                    let k = choose|k: int| 0 <= k < before.len() && before[k] == edges[j];
                    assert(after[k] == edges[j]);
                } else {
                    assert(after[before.len() as int] == edges[j]);
                }
            }
            assert forall|e: EdgeV| #[trigger] after.contains(e) implies edges.contains(e) by {
                let k = choose|k: int| 0 <= k < after.len() && after[k] == e;
                if k < before.len() {
                    assert(before[k] == e);
                    assert(before.contains(e));
                } else {
                    assert(edges[n - 1] == e);
                }
            }
        }
    }
}

/// `FORGET` removes the record and every edge at it, and nothing else: the record reads as absent,
/// all other records read as before, no edge at the record is left, and all other edges are.
pub proof fn law_forget(s: StoreV, id: RidV, other: RidV)
    requires
        ir::store_wf(s),
    ensures
        ({
            let t = store_after(s, StmtV::Forget { id });
            &&& ordmap::lookup::<RecordId, RecV>(t.records, id) is None
            &&& other != id ==> ordmap::lookup::<RecordId, RecV>(t.records, other)
                == ordmap::lookup::<RecordId, RecV>(s.records, other)
            &&& forall|i: int| 0 <= i < t.edges.len() ==> !at_record(#[trigger] t.edges[i], id)
            &&& forall|j: int|
                0 <= j < s.edges.len() && !at_record(#[trigger] s.edges[j], id)
                    ==> t.edges.contains(s.edges[j])
            &&& forall|e: EdgeV| #[trigger] t.edges.contains(e) ==> s.edges.contains(e)
            &&& t.vector_dims == s.vector_dims
        }),
{
    ordmap::lemma_without_lookup::<RecordId, RecV>(s.records, id, id);
    ordmap::lemma_without_lookup::<RecordId, RecV>(s.records, id, other);
    lemma_edges_without(s.edges, id, s.edges.len() as int);
}

/// Forgetting a record twice is forgetting it once.
pub proof fn law_forget_is_idempotent(s: StoreV, id: RidV)
    requires
        ir::store_wf(s),
    ensures
        ({
            let t = store_after(s, StmtV::Forget { id });
            store_after(t, StmtV::Forget { id }) == t
        }),
{
    let t = store_after(s, StmtV::Forget { id });
    law_forget(s, id, id);
    lemma_nothing_dropped(t.edges, id, t.edges.len() as int);
}

proof fn lemma_nothing_dropped(edges: Seq<EdgeV>, id: RidV, n: int)
    requires
        0 <= n <= edges.len(),
        forall|i: int| 0 <= i < edges.len() ==> !at_record(#[trigger] edges[i], id),
    ensures
        edges_without(edges, id, n) == edges.take(n),
    decreases n,
{
    if n > 0 {
        lemma_nothing_dropped(edges, id, n - 1);
        assert(!at_record(edges[n - 1], id));
        assert(edges.take(n) =~= edges.take(n - 1).push(edges[n - 1]));
    } else {
        assert(edges.take(0) =~= Seq::<EdgeV>::empty());
    }
    if n == edges.len() {
        assert(edges.take(n) =~= edges);
    }
}

/// The statement writes or removes the record at `id`.
pub open spec fn writes_record(stmt: StmtV, id: RidV) -> bool {
    match stmt {
        StmtV::Insert(rec) => rec.id == id,
        StmtV::Forget { id: other } => other == id,
        _ => false,
    }
}

/// The statement declares `table`.
pub open spec fn declares_table(stmt: StmtV, table: Seq<char>) -> bool {
    stmt matches StmtV::CreateTable { table: other, .. } && other == table
}

/// The last write to a record decides, and a record that is not written stays.
proof fn lemma_last_write(s: StoreV, t: StoreV, plan: Seq<StmtV>, n: int, id: RidV)
    requires
        ir::store_wf(s),
        ir::store_wf(t),
        0 <= n <= plan.len(),
    ensures
        ({
            let a = ordmap::lookup::<RecordId, RecV>(store_at(s, plan, n).records, id);
            let b = ordmap::lookup::<RecordId, RecV>(store_at(t, plan, n).records, id);
            if exists|i: int| 0 <= i < n && #[trigger] writes_record(plan[i], id) {
                a == b
            } else {
                a == ordmap::lookup::<RecordId, RecV>(s.records, id) && b == ordmap::lookup::<
                    RecordId,
                    RecV,
                >(t.records, id)
            }
        }),
    decreases n,
{
    if n > 0 {
        lemma_last_write(s, t, plan, n - 1, id);
        law_plan_keeps_store_wf(s, plan, n - 1);
        law_plan_keeps_store_wf(t, plan, n - 1);
        let a = store_at(s, plan, n - 1).records;
        let b = store_at(t, plan, n - 1).records;
        if writes_record(plan[n - 1], id) {
            assert(exists|i: int| 0 <= i < n && #[trigger] writes_record(plan[i], id));
        } else if exists|i: int| 0 <= i < n && #[trigger] writes_record(plan[i], id) {
            let i = choose|i: int| 0 <= i < n && #[trigger] writes_record(plan[i], id);
            assert(i < n - 1);
        }
        match plan[n - 1] {
            StmtV::Insert(rec) => {
                if rec.id == id {
                    ordmap::lemma_put_lookup_same::<RecordId, RecV>(a, id, rec);
                    ordmap::lemma_put_lookup_same::<RecordId, RecV>(b, id, rec);
                } else {
                    ordmap::lemma_put_lookup_other::<RecordId, RecV>(a, rec.id, rec, id);
                    ordmap::lemma_put_lookup_other::<RecordId, RecV>(b, rec.id, rec, id);
                }
            },
            StmtV::Forget { id: other } => {
                ordmap::lemma_without_lookup::<RecordId, RecV>(a, other, id);
                ordmap::lemma_without_lookup::<RecordId, RecV>(b, other, id);
            },
            _ => {},
        }
    }
}

/// The last declaration of a table decides, and a table that is not declared stays.
proof fn lemma_last_declaration(
    s: StoreV,
    t: StoreV,
    plan: Seq<StmtV>,
    n: int,
    table: Seq<char>,
)
    requires
        ir::store_wf(s),
        ir::store_wf(t),
        0 <= n <= plan.len(),
    ensures
        ({
            let a = ordmap::lookup::<String, usize>(store_at(s, plan, n).vector_dims, table);
            let b = ordmap::lookup::<String, usize>(store_at(t, plan, n).vector_dims, table);
            if exists|i: int| 0 <= i < n && #[trigger] declares_table(plan[i], table) {
                a == b
            } else {
                a == ordmap::lookup::<String, usize>(s.vector_dims, table) && b == ordmap::lookup::<
                    String,
                    usize,
                >(t.vector_dims, table)
            }
        }),
    decreases n,
{
    if n > 0 {
        lemma_last_declaration(s, t, plan, n - 1, table);
        law_plan_keeps_store_wf(s, plan, n - 1);
        law_plan_keeps_store_wf(t, plan, n - 1);
        let a = store_at(s, plan, n - 1).vector_dims;
        let b = store_at(t, plan, n - 1).vector_dims;
        if declares_table(plan[n - 1], table) {
            assert(exists|i: int| 0 <= i < n && #[trigger] declares_table(plan[i], table));
        } else if exists|i: int| 0 <= i < n && #[trigger] declares_table(plan[i], table) {
            let i = choose|i: int| 0 <= i < n && #[trigger] declares_table(plan[i], table);
            assert(i < n - 1);
        }
        match plan[n - 1] {
            StmtV::CreateTable { table: other, vector_dim: Some(dim) } => {
                if other == table {
                    ordmap::lemma_put_lookup_same::<String, usize>(a, table, dim);
                    ordmap::lemma_put_lookup_same::<String, usize>(b, table, dim);
                } else {
                    ordmap::lemma_put_lookup_other::<String, usize>(a, other, dim, table);
                    ordmap::lemma_put_lookup_other::<String, usize>(b, other, dim, table);
                }
            },
            StmtV::CreateTable { table: other, vector_dim: None } => {
                ordmap::lemma_without_lookup::<String, usize>(a, other, table);
                ordmap::lemma_without_lookup::<String, usize>(b, other, table);
            },
            _ => {},
        }
    }
}

/// The plan adds no edge.
pub open spec fn relates_nothing(plan: Seq<StmtV>) -> bool {
    forall|i: int| 0 <= i < plan.len() ==> !(#[trigger] plan[i] is Relate)
}

/// Behind a plan that adds no edge, no edge is left at a record that it forgets.
proof fn lemma_forgotten_edges(s: StoreV, plan: Seq<StmtV>, n: int, i: int)
    requires
        ir::store_wf(s),
        relates_nothing(plan),
        0 <= i < n <= plan.len(),
        plan[i] is Forget,
    ensures
        forall|j: int|
            0 <= j < store_at(s, plan, n).edges.len() ==> !at_record(
                #[trigger] store_at(s, plan, n).edges[j],
                plan[i]->Forget_id,
            ),
    decreases n,
{
    let id = plan[i]->Forget_id;
    let before = store_at(s, plan, n - 1);
    let after = store_at(s, plan, n);
    law_plan_keeps_store_wf(s, plan, n - 1);
    if i == n - 1 {
        law_forget(before, id, id);
    } else {
        lemma_forgotten_edges(s, plan, n - 1, i);
        assert(!(plan[n - 1] is Relate));
        if let StmtV::Forget { id: other } = plan[n - 1] {
            law_forget(before, other, other);
            assert forall|j: int| 0 <= j < after.edges.len() implies !at_record(
                #[trigger] after.edges[j],
                id,
            ) by {
                assert(after.edges.contains(after.edges[j]));
                let k = choose|k: int| 0 <= k < before.edges.len() && before.edges[k] == after.edges[j];
                assert(!at_record(before.edges[k], id));
            }
        }
    }
}

/// A plan that adds no edge drops none behind itself.
proof fn lemma_edges_stay(s: StoreV, plan: Seq<StmtV>, n: int)
    requires
        ir::store_wf(s),
        relates_nothing(plan),
        0 <= n <= plan.len(),
    ensures
        ({
            let t = store_at(s, plan, plan.len() as int);
            store_at(t, plan, n).edges == t.edges
        }),
    decreases n,
{
    if n > 0 {
        lemma_edges_stay(s, plan, n - 1);
        assert(!(plan[n - 1] is Relate));
        if let StmtV::Forget { id } = plan[n - 1] {
            let t = store_at(s, plan, plan.len() as int);
            lemma_forgotten_edges(s, plan, plan.len() as int, n - 1);
            lemma_nothing_dropped(t.edges, id, t.edges.len() as int);
        }
    }
}

/// A plan that adds no edge is idempotent: run again on the store it left, it leaves the same store,
/// with no record twice and none lost.
pub proof fn law_plan_without_relations_is_idempotent(s: StoreV, plan: Seq<StmtV>)
    requires
        ir::store_wf(s),
        relates_nothing(plan),
    ensures
        ({
            let t = store_at(s, plan, plan.len() as int);
            store_at(t, plan, plan.len() as int) == t
        }),
{
    let n = plan.len() as int;
    let t = store_at(s, plan, n);
    let u = store_at(t, plan, n);
    law_plan_keeps_store_wf(s, plan, n);
    law_plan_keeps_store_wf(t, plan, n);
    assert forall|id: RidV| #[trigger]
        ordmap::lookup::<RecordId, RecV>(u.records, id) == ordmap::lookup::<RecordId, RecV>(
            t.records,
            id,
        ) by {
        lemma_last_write(s, t, plan, n, id);
    }
    ordmap::lemma_same_map::<RecordId, RecV>(u.records, t.records);
    assert forall|table: Seq<char>| #[trigger]
        ordmap::lookup::<String, usize>(u.vector_dims, table) == ordmap::lookup::<String, usize>(
            t.vector_dims,
            table,
        ) by {
        lemma_last_declaration(s, t, plan, n, table);
    }
    ordmap::lemma_same_map::<String, usize>(u.vector_dims, t.vector_dims);
    lemma_edges_stay(s, plan, n);
}

/// A declared dimension is enforced: behind `CREATE TABLE t VECTOR<f32, d>` an insertion into `t`
/// fails if and only if its embedding has another length; behind a declaration without a dimension
/// no insertion into `t` fails.
pub proof fn law_declared_dimension_is_enforced(
    s: StoreV,
    table: Seq<char>,
    vector_dim: Option<usize>,
    rec: RecV,
)
    requires
        ir::store_wf(s),
        rec.id.table == table,
    ensures
        ({
            let t = store_after(s, StmtV::CreateTable { table, vector_dim });
            exec_fault(t, StmtV::Insert(rec)) is Some <==> (vector_dim is Some && rec.embedding is Some
                && rec.embedding->0.len() != vector_dim->0)
        }),
{
    match vector_dim {
        Some(dim) => {
            ordmap::lemma_put_lookup_same::<String, usize>(s.vector_dims, table, dim);
        },
        None => {
            ordmap::lemma_without_lookup::<String, usize>(s.vector_dims, table, table);
        },
    }
}

/// A statement reads, and so gives a result, exactly if it is a `SELECT`, `MATCH` or `CLOSURE`; one
/// that reads never fails and leaves the store as it is.
pub proof fn law_reading_changes_nothing(g: Scoring, s: StoreV, stmt: StmtV)
    ensures
        query_result(g, s, stmt) is Some <==> stmt is Select || stmt is Match || stmt is Closure,
        query_result(g, s, stmt) is Some ==> store_after(s, stmt) == s && exec_fault(s, stmt) is None,
{
}

/// How many of the first `n` statements read.
pub open spec fn reads(plan: Seq<StmtV>, n: int) -> int
    decreases n,
{
    if n <= 0 {
        0
    } else {
        reads(plan, n - 1) + if plan[n - 1] is Select || plan[n - 1] is Match || plan[n - 1] is Closure {
            1int
        } else {
            0
        }
    }
}

/// A plan gives one result for each statement that reads, and none for the others.
pub proof fn law_one_result_per_read(g: Scoring, s: StoreV, plan: Seq<StmtV>, n: int)
    requires
        0 <= n <= plan.len(),
    ensures
        results_at(g, s, plan, n).len() == reads(plan, n),
    decreases n,
{
    if n > 0 {
        law_one_result_per_read(g, s, plan, n - 1);
    }
}

proof fn lemma_prefix(g: Scoring, s: StoreV, a: Seq<StmtV>, b: Seq<StmtV>, n: int)
    requires
        0 <= n <= a.len(),
    ensures
        store_at(s, a + b, n) == store_at(s, a, n),
        results_at(g, s, a + b, n) == results_at(g, s, a, n),
    decreases n,
{
    if n > 0 {
        lemma_prefix(g, s, a, b, n - 1);
        assert((a + b)[n - 1] == a[n - 1]);
    }
}

proof fn lemma_suffix(g: Scoring, s: StoreV, a: Seq<StmtV>, b: Seq<StmtV>, n: int)
    requires
        0 <= n <= b.len(),
    ensures
        ({
            let mid = store_at(s, a, a.len() as int);
            &&& store_at(s, a + b, a.len() + n) == store_at(mid, b, n)
            &&& results_at(g, s, a + b, a.len() + n) == results_at(g, s, a, a.len() as int)
                + results_at(g, mid, b, n)
        }),
    decreases n,
{
    let mid = store_at(s, a, a.len() as int);
    lemma_prefix(g, s, a, b, a.len() as int);
    if n > 0 {
        lemma_suffix(g, s, a, b, n - 1);
        assert((a + b)[a.len() + n - 1] == b[n - 1]);
        let first = results_at(g, s, a, a.len() as int);
        let second = results_at(g, mid, b, n - 1);
        match query_result(g, store_at(mid, b, n - 1), b[n - 1]) {
            Some(res) => {
                assert((first + second).push(res) =~= first + second.push(res));
            },
            None => {},
        }
    } else {
        assert(results_at(g, s, a, a.len() as int) + Seq::<ResV>::empty() =~= results_at(
            g,
            s,
            a,
            a.len() as int,
        ));
    }
}

/// Running one plan and then another is running both as one: the same store, the same results one
/// after the other, and a fault in the whole exactly where one of them has it.
pub proof fn law_plans_compose(g: Scoring, s: StoreV, a: Seq<StmtV>, b: Seq<StmtV>)
    ensures
        ({
            let mid = store_at(s, a, a.len() as int);
            let whole = a + b;
            &&& store_at(s, whole, whole.len() as int) == store_at(mid, b, b.len() as int)
            &&& results_at(g, s, whole, whole.len() as int) == results_at(g, s, a, a.len() as int)
                + results_at(g, mid, b, b.len() as int)
            &&& plan_runs(s, whole) <==> plan_runs(s, a) && plan_runs(mid, b)
        }),
{
    let mid = store_at(s, a, a.len() as int);
    let whole = a + b;
    lemma_suffix(g, s, a, b, b.len() as int);
    assert forall|i: int| 0 <= i < a.len() implies plan_fault_at(s, whole, i)
        == #[trigger] plan_fault_at(s, a, i) by {
        lemma_prefix(g, s, a, b, i);
        assert(whole[i] == a[i]);
    }
    assert forall|i: int| 0 <= i < b.len() implies plan_fault_at(s, whole, a.len() + i)
        == #[trigger] plan_fault_at(mid, b, i) by {
        lemma_suffix(g, s, a, b, i);
        assert(whole[a.len() + i] == b[i]);
    }
    if plan_runs(s, whole) {
        assert forall|i: int| 0 <= i < a.len() implies #[trigger] plan_fault_at(s, a, i) is None by {
            assert(plan_fault_at(s, whole, i) is None);
        }
        assert forall|i: int| 0 <= i < b.len() implies #[trigger] plan_fault_at(
            mid,
            b,
            i,
        ) is None by {
            assert(plan_fault_at(s, whole, a.len() + i) is None);
        }
    }
    if plan_runs(s, a) && plan_runs(mid, b) {
        assert forall|i: int| 0 <= i < whole.len() implies #[trigger] plan_fault_at(
            s,
            whole,
            i,
        ) is None by {
            if i < a.len() {
                assert(plan_fault_at(s, a, i) is None);
            } else {
                assert(plan_fault_at(mid, b, i - a.len()) is None);
                assert(plan_fault_at(s, whole, a.len() + (i - a.len())) is None);
            }
        }
    }
}

/// A plan either runs or fails with one error: there is a first fault exactly where it does not run.
pub proof fn law_plan_runs_or_fails(s: StoreV, plan: Seq<StmtV>)
    ensures
        plan_runs(s, plan) <==> !exists|e: ErrorV| plan_fails(s, plan, e),
        forall|d: ErrorV, e: ErrorV|
            plan_fails(s, plan, d) && plan_fails(s, plan, e) ==> d == e,
{
    if !plan_runs(s, plan) {
        lemma_first_fault(s, plan, 0);
    }
}

/// Execution is deterministic. The same plan on the same store, with scores that depend on what they
/// are computed from alone, leaves the same store and gives the same results or the same error.
pub proof fn law_execution_is_deterministic<F: Fn(ScoreTask) -> u32>(
    f: F,
    g: Scoring,
    s: StoreV,
    plan: Seq<StmtV>,
    t: StoreV,
    out: Result<Seq<ResV>, ErrorV>,
    again: StoreV,
    same: Result<Seq<ResV>, ErrorV>,
)
    requires
        score::scores_by(f, g),
        executed(f, s, plan, t, out),
        executed(f, s, plan, again, same),
    ensures
        again == t,
        same == out,
{
    law_plan_runs_or_fails(s, plan);
    match (out, same) {
        (Ok(_), Err(e)) => {
            assert(plan_fails(s, plan, e));
        },
        (Err(e), Ok(_)) => {
            assert(plan_fails(s, plan, e));
        },
        _ => {},
    }
}

proof fn lemma_first_fault(s: StoreV, plan: Seq<StmtV>, n: int)
    requires
        0 <= n <= plan.len(),
        !plan_runs(s, plan),
        forall|j: int| 0 <= j < n ==> #[trigger] plan_fault_at(s, plan, j) is None,
    ensures
        exists|e: ErrorV| plan_fails(s, plan, e),
    decreases plan.len() - n,
{
    if n < plan.len() {
        match plan_fault_at(s, plan, n) {
            Some(e) => {
                assert(plan_fails(s, plan, e));
            },
            None => {
                lemma_first_fault(s, plan, n + 1);
            },
        }
    }
}

// ---------------------------------------------------------------------------------------------
// Laws on effects: what each kind of statement does to the store
// ---------------------------------------------------------------------------------------------
/// `RELATE` never fails and always appends: the edges are those of before, in their order, with
/// exactly the new edge behind them, whatever edges there were; nothing else changes.
pub proof fn law_relate_appends(s: StoreV, edge: EdgeV)
    ensures
        exec_fault(s, StmtV::Relate(edge)) is None,
        ({
            let t = store_after(s, StmtV::Relate(edge));
            &&& t.edges.len() == s.edges.len() + 1
            &&& t.edges[s.edges.len() as int] == edge
            &&& forall|i: int| 0 <= i < s.edges.len() ==> #[trigger] t.edges[i] == s.edges[i]
            &&& t.records == s.records
            &&& t.vector_dims == s.vector_dims
        }),
{
}

/// What was related is found: behind `RELATE` between two stored records, a `MATCH` along the name of
/// the edge leads from each of them to the other, out of the one and into the other.
pub proof fn law_related_records_match(s: StoreV, edge: EdgeV)
    requires
        ir::store_wf(s),
        ordmap::lookup::<RecordId, RecV>(s.records, edge.from) is Some,
        ordmap::lookup::<RecordId, RecV>(s.records, edge.to) is Some,
    ensures
        ({
            let t = store_after(s, StmtV::Relate(edge));
            let out = StepV { direction: MatchDirection::Out, name: edge.name, edge_props: None };
            let back = StepV { direction: MatchDirection::In, name: edge.name, edge_props: None };
            let ahead = walk::match_rows(t, PathV { start: edge.from, steps: seq![out] });
            let behind = walk::match_rows(t, PathV { start: edge.to, steps: seq![back] });
            &&& exists|k: int|
                0 <= k < ahead.len() && (#[trigger] ahead[k]).record.id == edge.to
            &&& exists|k: int|
                0 <= k < behind.len() && (#[trigger] behind[k]).record.id == edge.from
        }),
{
    let t = store_after(s, StmtV::Relate(edge));
    law_statement_keeps_store_wf(s, StmtV::Relate(edge));
    let out = StepV { direction: MatchDirection::Out, name: edge.name, edge_props: None };
    let back = StepV { direction: MatchDirection::In, name: edge.name, edge_props: None };
    lemma_one_edge_matches(t, edge.from, out, s.edges.len() as int, edge.to);
    lemma_one_edge_matches(t, edge.to, back, s.edges.len() as int, edge.from);
}

proof fn lemma_one_edge_matches(t: StoreV, a: RidV, step: StepV, k: int, b: RidV)
    requires
        ir::store_wf(t),
        walk::hop(t, step, k, a, b),
        ordmap::lookup::<RecordId, RecV>(t.records, a) is Some,
    ensures
        walk::lists(walk::match_rows(t, PathV { start: a, steps: seq![step] }), b),
{
    let path = PathV { start: a, steps: seq![step] };
    let q = walk::shorter(path);
    walk::law_match_starts_at_the_start(t, q);
    walk::law_match_goes_one_step_further(t, path, b);
    let rows = walk::match_rows(t, q);
    let p = ordmap::slot::<RecordId, RecV>(t.records, a, 0);
    assert(t.records[p].1.id == t.records[p].0);
    assert(rows[0].record.id == a);
    assert(walk::lists(rows, a));
}

/// `CREATE` declares the dimension of its table, or takes it back where it names none; it never
/// fails, and all else stays as it was.
pub proof fn law_create_declares(
    s: StoreV,
    table: Seq<char>,
    vector_dim: Option<usize>,
    other: Seq<char>,
)
    requires
        ir::store_wf(s),
    ensures
        exec_fault(s, StmtV::CreateTable { table, vector_dim }) is None,
        ({
            let t = store_after(s, StmtV::CreateTable { table, vector_dim });
            &&& ordmap::lookup::<String, usize>(t.vector_dims, table) == vector_dim
            &&& other != table ==> ordmap::lookup::<String, usize>(t.vector_dims, other)
                == ordmap::lookup::<String, usize>(s.vector_dims, other)
            &&& t.records == s.records
            &&& t.edges == s.edges
        }),
{
    match vector_dim {
        Some(dim) => {
            ordmap::lemma_put_lookup_same::<String, usize>(s.vector_dims, table, dim);
            if other != table {
                ordmap::lemma_put_lookup_other::<String, usize>(s.vector_dims, table, dim, other);
            }
        },
        None => {
            ordmap::lemma_without_lookup::<String, usize>(s.vector_dims, table, table);
            ordmap::lemma_without_lookup::<String, usize>(s.vector_dims, table, other);
        },
    }
}

/// `INSERT` stores the record under its id, in the place of one that stood there, and changes nothing
/// else. It fails exactly if its table declares a dimension and the record has an embedding of
/// another length; the error names the table and both lengths.
pub proof fn law_insert_stores(s: StoreV, rec: RecV, other: RidV)
    requires
        ir::store_wf(s),
    ensures
        ({
            let t = store_after(s, StmtV::Insert(rec));
            &&& ordmap::lookup::<RecordId, RecV>(t.records, rec.id) == Some(rec)
            &&& other != rec.id ==> ordmap::lookup::<RecordId, RecV>(t.records, other)
                == ordmap::lookup::<RecordId, RecV>(s.records, other)
            &&& t.edges == s.edges
            &&& t.vector_dims == s.vector_dims
        }),
        exec_fault(s, StmtV::Insert(rec)) is Some <==> ordmap::lookup::<String, usize>(
            s.vector_dims,
            rec.id.table,
        ) is Some && rec.embedding is Some && rec.embedding->0.len() != ordmap::lookup::<
            String,
            usize,
        >(s.vector_dims, rec.id.table)->0,
        exec_fault(s, StmtV::Insert(rec)) matches Some(e) ==> (e matches ErrorV::EmbeddingDimMismatch {
            table,
            expected,
            actual,
        } && table == rec.id.table && Some(expected) == ordmap::lookup::<String, usize>(
            s.vector_dims,
            rec.id.table,
        ) && actual == rec.embedding->0.len() as usize),
{
    ir::law_insert_then_read(s, rec);
    if other != rec.id {
        ir::law_insert_keeps_others(s, rec, other);
    }
}

/// The edges that `FORGET` leaves are those that neither start nor end at the record, each as often
/// as before and in their order; it never fails.
pub proof fn law_forget_filters_the_edges(s: StoreV, id: RidV)
    ensures
        exec_fault(s, StmtV::Forget { id }) is None,
        store_after(s, StmtV::Forget { id }).edges == s.edges.filter(
            |e: EdgeV| e.from != id && e.to != id,
        ),
{
    lemma_edges_filtered(s.edges, id, s.edges.len() as int);
    assert(s.edges.take(s.edges.len() as int) =~= s.edges);
}

proof fn lemma_edges_filtered(edges: Seq<EdgeV>, id: RidV, n: int)
    requires
        0 <= n <= edges.len(),
    ensures
        edges_without(edges, id, n) == edges.take(n).filter(|e: EdgeV| e.from != id && e.to != id),
    decreases n,
{
    reveal(Seq::filter);
    if n > 0 {
        lemma_edges_filtered(edges, id, n - 1);
        assert(edges.take(n).drop_last() =~= edges.take(n - 1));
        assert(edges.take(n).last() == edges[n - 1]);
    }
}

/// A plan of one statement does what the statement does.
pub proof fn law_plan_of_one(g: Scoring, s: StoreV, stmt: StmtV)
    ensures
        plan_runs(s, seq![stmt]) <==> exec_fault(s, stmt) is None,
        exec_fault(s, stmt) matches Some(e) ==> plan_fails(s, seq![stmt], e),
        store_at(s, seq![stmt], 1) == store_after(s, stmt),
        results_at(g, s, seq![stmt], 1) == match query_result(g, s, stmt) {
            Some(res) => seq![res],
            None => Seq::empty(),
        },
{
    let plan = seq![stmt];
    assert(store_at(s, plan, 0) == s);
    assert(plan_fault_at(s, plan, 0) == exec_fault(s, stmt));
    assert(results_at(g, s, plan, 0) =~= Seq::<ResV>::empty());
    assert(store_at(s, plan, 1) == store_after(s, stmt));
    if plan_runs(s, plan) {
        assert(plan_fault_at(s, plan, 0) is None);
    }
}

/// A statement answers with what it asks for: its own clauses or path, with the rows of that kind of
/// query. A statement that writes answers nothing.
pub proof fn law_statements_answer_their_own_query(
    g: Scoring,
    s: StoreV,
    sel: SelV,
    path: PathV,
    edge: EdgeV,
    rec: RecV,
    id: RidV,
    table: Seq<char>,
    dim: Option<usize>,
)
    ensures
        query_result(g, s, StmtV::Select(sel)) == Some(
            ResV { kind: KindV::Select(sel), rows: select::select_rows(g, s, sel) },
        ),
        query_result(g, s, StmtV::Match(path)) == Some(
            ResV { kind: KindV::Match(path), rows: walk::match_rows(s, path) },
        ),
        query_result(g, s, StmtV::Closure(path)) == Some(
            ResV { kind: KindV::Closure(path), rows: walk::closure_rows(g, s, path) },
        ),
        query_result(g, s, StmtV::Relate(edge)) is None,
        query_result(g, s, StmtV::Insert(rec)) is None,
        query_result(g, s, StmtV::Forget { id }) is None,
        query_result(g, s, StmtV::CreateTable { table, vector_dim: dim }) is None,
{
}

} // verus!
