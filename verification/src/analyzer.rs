//! Plan analysis: are the tables declared, do embeddings fit, are record ids whole; and the order
//! that a nearest-neighbour selection implies.
//!
//! Analysis never changes the plan it is given. It returns an error or an enriched copy.
use vstd::prelude::*;

use crate::ir::{Id, Order, Plan, RecordId, Select, Statement};
#[allow(unused_imports)]
use crate::ir::{IdV, KnnV, RecV, RidV, SelV, StmtV};
use crate::ordmap;
use crate::ordmap::{Dup, OrdMap};
use crate::text;

verus! {

/// Why a plan cannot be executed as written.
#[derive(Debug, PartialEq, Eq)]
pub enum AnalysisError {
    /// A `SELECT` from a table that was not declared.
    UnknownTableForSelect { table: String },
    /// An `INSERT` into a table that was not declared.
    UnknownTableForInsert { table: String },
    /// An embedding whose length is not the declared dimension of its table.
    EmbeddingDimMismatch { table: String, expected: usize, actual: usize },
    /// `ORDER BY similarity` without a query vector to compare with.
    SimilarityWithoutKnn,
    /// A record id without a table.
    EmptyTable,
    /// A record id whose name is empty.
    EmptyId { table: String },
}

#[verifier::ext_equal]
pub enum AnErrV {
    UnknownTableForSelect { table: Seq<char> },
    UnknownTableForInsert { table: Seq<char> },
    EmbeddingDimMismatch { table: Seq<char>, expected: usize, actual: usize },
    SimilarityWithoutKnn,
    EmptyTable,
    EmptyId { table: Seq<char> },
}

impl View for AnalysisError {
    type V = AnErrV;

    open spec fn view(&self) -> AnErrV {
        match *self {
            AnalysisError::UnknownTableForSelect { table } => AnErrV::UnknownTableForSelect {
                table: table@,
            },
            AnalysisError::UnknownTableForInsert { table } => AnErrV::UnknownTableForInsert {
                table: table@,
            },
            AnalysisError::EmbeddingDimMismatch { table, expected, actual } => {
                AnErrV::EmbeddingDimMismatch { table: table@, expected, actual }
            },
            AnalysisError::SimilarityWithoutKnn => AnErrV::SimilarityWithoutKnn,
            AnalysisError::EmptyTable => AnErrV::EmptyTable,
            AnalysisError::EmptyId { table } => AnErrV::EmptyId { table: table@ },
        }
    }
}

/// An analysis error in writing.
pub open spec fn analysis_error_text(e: AnErrV) -> Seq<char> {
    match e {
        AnErrV::UnknownTableForSelect { table } => "SELECT on table `"@ + table
            + "` requires a prior CREATE TABLE statement or a built-in table"@,
        AnErrV::UnknownTableForInsert { table } => "INSERT into table `"@ + table
            + "` requires a prior CREATE TABLE statement or a built-in table"@,
        AnErrV::EmbeddingDimMismatch { table, expected, actual } => "INSERT into `"@ + table
            + "` has embedding of dimension "@ + text::dec_text(actual as nat)
            + ", but the table declares VECTOR<f32, "@ + text::dec_text(expected as nat) + ">"@,
        AnErrV::SimilarityWithoutKnn =>
            "ORDER BY similarity requires a kNN query vector (WHERE vector::similarity(...))"@,
        AnErrV::EmptyTable => "record id table must not be empty"@,
        AnErrV::EmptyId { table } => "record id in table `"@ + table
            + "` has an empty id string"@,
    }
}

impl AnalysisError {
    /// The error in writing.
    pub fn to_text(&self) -> (r: String)
        ensures
            r@ == analysis_error_text(self@),
    {
        match self {
            AnalysisError::UnknownTableForSelect { table } => text::join3(
                "SELECT on table `",
                table.as_str(),
                "` requires a prior CREATE TABLE statement or a built-in table",
            ),
            AnalysisError::UnknownTableForInsert { table } => text::join3(
                "INSERT into table `",
                table.as_str(),
                "` requires a prior CREATE TABLE statement or a built-in table",
            ),
            AnalysisError::EmbeddingDimMismatch { table, expected, actual } => {
                let got = text::usize_text(*actual);
                let want = text::usize_text(*expected);
                let mut r = text::join4(
                    "INSERT into `",
                    table.as_str(),
                    "` has embedding of dimension ",
                    got.as_str(),
                );
                r.append(", but the table declares VECTOR<f32, ");
                r.append(want.as_str());
                r.append(">");
                r
            },
            AnalysisError::SimilarityWithoutKnn => text::owned(
                "ORDER BY similarity requires a kNN query vector (WHERE vector::similarity(...))",
            ),
            AnalysisError::EmptyTable => text::owned("record id table must not be empty"),
            AnalysisError::EmptyId { table } => text::join3(
                "record id in table `",
                table.as_str(),
                "` has an empty id string",
            ),
        }
    }
}

/// What analysis knows behind some statements of a plan: the declared tables and dimensions.
struct Ctx {
    declared: OrdMap<String, ()>,
    vector_dims: OrdMap<String, usize>,
}

#[verifier::ext_equal]
pub struct CtxV {
    pub declared: Seq<(Seq<char>, ())>,
    pub vector_dims: Seq<(Seq<char>, usize)>,
}

impl View for Ctx {
    type V = CtxV;

    closed spec fn view(&self) -> CtxV {
        CtxV { declared: self.declared@, vector_dims: self.vector_dims@ }
    }
}

/// The table is declared.
pub open spec fn declares(ctx: CtxV, table: Seq<char>) -> bool {
    ordmap::holds::<String, ()>(ctx.declared, table)
}

/// The tables that exist without a declaration: `global` and `meta`.
pub open spec fn builtin_tables() -> CtxV {
    CtxV {
        declared: ordmap::put::<String, ()>(
            ordmap::put::<String, ()>(Seq::empty(), "global"@, ()),
            "meta"@,
            (),
        ),
        vector_dims: Seq::empty(),
    }
}

/// What is wrong with a record id, if anything: an empty table, or an empty name.
pub open spec fn rid_fault(r: RidV) -> Option<AnErrV> {
    if r.table.len() == 0 {
        Some(AnErrV::EmptyTable)
    } else if r.id == IdV::Str(Seq::empty()) {
        Some(AnErrV::EmptyId { table: r.table })
    } else {
        None
    }
}

/// A selection with the order it implies: a kNN clause without an order is ordered by similarity.
pub open spec fn enriched(sel: SelV) -> SelV {
    if sel.knn is Some && sel.order is None {
        SelV { order: Some(Order::Similarity), ..sel }
    } else {
        sel
    }
}

/// What is wrong with a statement behind the declarations `ctx`, if anything.
pub open spec fn stmt_fault(ctx: CtxV, s: StmtV) -> Option<AnErrV> {
    match s {
        StmtV::CreateTable { .. } => None,
        StmtV::Insert(rec) => {
            let table = rec.id.table;
            if rid_fault(rec.id) is Some {
                rid_fault(rec.id)
            } else if !declares(ctx, table) {
                Some(AnErrV::UnknownTableForInsert { table })
            } else {
                match (ordmap::lookup::<String, usize>(ctx.vector_dims, table), rec.embedding) {
                    (Some(expected), Some(v)) => if v.len() != expected {
                        Some(
                            AnErrV::EmbeddingDimMismatch {
                                table,
                                expected,
                                actual: v.len() as usize,
                            },
                        )
                    } else {
                        None
                    },
                    _ => None,
                }
            }
        },
        StmtV::Relate(edge) => if rid_fault(edge.from) is Some {
            rid_fault(edge.from)
        } else {
            rid_fault(edge.to)
        },
        StmtV::Select(sel) => if !declares(ctx, sel.table) {
            Some(AnErrV::UnknownTableForSelect { table: sel.table })
        } else if sel.order == Some(Order::Similarity) && sel.knn is None {
            Some(AnErrV::SimilarityWithoutKnn)
        } else {
            None
        },
        StmtV::Match(path) => rid_fault(path.start),
        StmtV::Closure(path) => rid_fault(path.start),
        StmtV::Forget { id } => rid_fault(id),
    }
}

/// What analysis makes of a sound statement: a selection is enriched, all else stays.
pub open spec fn stmt_enriched(s: StmtV) -> StmtV {
    match s {
        StmtV::Select(sel) => StmtV::Select(enriched(sel)),
        _ => s,
    }
}

/// The declarations behind a statement.
pub open spec fn ctx_after(ctx: CtxV, s: StmtV) -> CtxV {
    match s {
        StmtV::CreateTable { table, vector_dim } => CtxV {
            declared: ordmap::put::<String, ()>(ctx.declared, table, ()),
            vector_dims: match vector_dim {
                Some(dim) => ordmap::put::<String, usize>(ctx.vector_dims, table, dim),
                None => ctx.vector_dims,
            },
        },
        _ => ctx,
    }
}

/// The declarations behind the first `n` statements of a plan.
pub open spec fn ctx_at(ctx: CtxV, plan: Seq<StmtV>, n: int) -> CtxV
    decreases n,
{
    if n <= 0 {
        ctx
    } else {
        ctx_after(ctx_at(ctx, plan, n - 1), plan[n - 1])
    }
}

/// The statements of a plan, each as analysis makes it.
pub open spec fn plan_enriched(plan: Seq<StmtV>) -> Seq<StmtV> {
    Seq::new(plan.len(), |i: int| stmt_enriched(plan[i]))
}

/// What is wrong with statement `i` of a plan that starts behind `ctx`.
pub open spec fn fault_at(ctx: CtxV, plan: Seq<StmtV>, i: int) -> Option<AnErrV> {
    stmt_fault(ctx_at(ctx, plan, i), plan[i])
}

/// `e` is the fault of the first statement that has one.
pub open spec fn first_fault(ctx: CtxV, plan: Seq<StmtV>, e: AnErrV) -> bool {
    exists|i: int|
        0 <= i < plan.len() && #[trigger] fault_at(ctx, plan, i) == Some(e) && forall|j: int|
            0 <= j < i ==> #[trigger] fault_at(ctx, plan, j) is None
}

/// No statement of the plan has a fault.
pub open spec fn faultless(ctx: CtxV, plan: Seq<StmtV>) -> bool {
    forall|i: int| 0 <= i < plan.len() ==> #[trigger] fault_at(ctx, plan, i) is None
}

fn validate_record_id(rid: &RecordId) -> (r: Result<(), AnalysisError>)
    ensures
        match r {
            Ok(_) => rid_fault(rid@) is None,
            Err(e) => rid_fault(rid@) == Some(e@),
        },
{
    if rid.table.as_str().is_empty() {
        return Err(AnalysisError::EmptyTable);
    }
    match &rid.id {
        Id::Str(s) => {
            if s.as_str().is_empty() {
                assert(s@ =~= Seq::<char>::empty());
                return Err(AnalysisError::EmptyId { table: text::owned(rid.table.as_str()) });
            }
        },
        Id::Num(_) => {},
    }
    Ok(())
}

fn enrich_select(sel: &Select) -> (r: Result<Select, AnalysisError>)
    ensures
        match r {
            Ok(out) => out@ == enriched(sel@) && !(sel@.order == Some(Order::Similarity)
                && sel@.knn is None),
            Err(e) => e@ == AnErrV::SimilarityWithoutKnn && sel@.order == Some(
                Order::Similarity,
            ) && sel@.knn is None,
        },
{
    let mut out = sel.dup();
    if out.knn.is_some() && out.order.is_none() {
        out.order = Some(Order::Similarity);
    }
    if let Some(Order::Similarity) = out.order {
        if out.knn.is_none() {
            return Err(AnalysisError::SimilarityWithoutKnn);
        }
    }
    Ok(out)
}

impl Ctx {
    fn new() -> (r: Self)
        ensures
            r@ == builtin_tables(),
    {
        let mut declared: OrdMap<String, ()> = OrdMap::new();
        declared.insert(text::owned("global"), ());
        declared.insert(text::owned("meta"), ());
        Ctx { declared, vector_dims: OrdMap::new() }
    }

    fn analyze_statement(&mut self, stmt: &Statement) -> (r: Result<Statement, AnalysisError>)
        ensures
            match r {
                Ok(out) => stmt_fault(old(self)@, stmt@) is None && out@ == stmt_enriched(stmt@)
                    && final(self)@ == ctx_after(old(self)@, stmt@),
                Err(e) => stmt_fault(old(self)@, stmt@) == Some(e@) && final(self)@ == old(self)@,
            },
    {
        match stmt {
            Statement::CreateTable { table, vector_dim } => {
                self.declared.insert(text::owned(table.as_str()), ());
                if let Some(dim) = vector_dim {
                    self.vector_dims.insert(text::owned(table.as_str()), *dim);
                }
                Ok(stmt.dup())
            },
            Statement::Insert(rec) => {
                match validate_record_id(&rec.id) {
                    Ok(_) => {},
                    Err(e) => return Err(e),
                }
                let table = &rec.id.table;
                if !self.declared.contains_key(table) {
                    return Err(
                        AnalysisError::UnknownTableForInsert { table: text::owned(table.as_str()) },
                    );
                }
                if let Some(expected) = self.vector_dims.get(table) {
                    if let Some(embedding) = &rec.embedding {
                        if embedding.len() != *expected {
                            return Err(
                                AnalysisError::EmbeddingDimMismatch {
                                    table: text::owned(table.as_str()),
                                    expected: *expected,
                                    actual: embedding.len(),
                                },
                            );
                        }
                    }
                }
                Ok(stmt.dup())
            },
            Statement::Relate(edge) => {
                match validate_record_id(&edge.from) {
                    Ok(_) => {},
                    Err(e) => return Err(e),
                }
                match validate_record_id(&edge.to) {
                    Ok(_) => Ok(stmt.dup()),
                    Err(e) => Err(e),
                }
            },
            Statement::Select(sel) => {
                if !self.declared.contains_key(&sel.table) {
                    return Err(
                        AnalysisError::UnknownTableForSelect {
                            table: text::owned(sel.table.as_str()),
                        },
                    );
                }
                match enrich_select(sel) {
                    Ok(out) => Ok(Statement::Select(out)),
                    Err(e) => Err(e),
                }
            },
            Statement::Match(path) => match validate_record_id(&path.start) {
                Ok(_) => Ok(stmt.dup()),
                Err(e) => Err(e),
            },
            Statement::Closure(path) => match validate_record_id(&path.start) {
                Ok(_) => Ok(stmt.dup()),
                Err(e) => Err(e),
            },
            Statement::Forget { id } => match validate_record_id(id) {
                Ok(_) => Ok(stmt.dup()),
                Err(e) => Err(e),
            },
        }
    }
}

/// Checks a plan for execution, and enriches it.
pub struct Analyzer;

impl Analyzer {
    /// Analyzes a whole plan in order: earlier statements declare tables for later ones. The first
    /// fault is returned; without one, the enriched plan.
    pub fn analyze(plan: &Plan) -> (r: Result<Plan, AnalysisError>)
        ensures
            match r {
                Ok(out) => faultless(builtin_tables(), ordmap::views(plan@)) && ordmap::views(out@)
                    == plan_enriched(ordmap::views(plan@)),
                Err(e) => first_fault(builtin_tables(), ordmap::views(plan@), e@),
            },
    {
        let mut ctx = Ctx::new();
        let mut out: Plan = Vec::new();
        let ghost stmts = ordmap::views(plan@);
        let mut i: usize = 0;
        while i < plan.len()
            invariant
                i <= plan.len(),
                stmts == ordmap::views(plan@),
                out.len() == i,
                ctx@ == ctx_at(builtin_tables(), stmts, i as int),
                forall|j: int|
                    0 <= j < i ==> #[trigger] fault_at(builtin_tables(), stmts, j) is None,
                forall|j: int| 0 <= j < i ==> (#[trigger] out@[j])@ == stmt_enriched(stmts[j]),
            decreases plan.len() - i,
        {
            assert(stmts[i as int] == plan@[i as int]@);
            match ctx.analyze_statement(&plan[i]) {
                Ok(s) => {
                    assert(fault_at(builtin_tables(), stmts, i as int) is None);
                    out.push(s);
                },
                Err(e) => {
                    assert(fault_at(builtin_tables(), stmts, i as int) == Some(e@));
                    return Err(e);
                },
            }
            i = i + 1;
        }
        assert(ordmap::views(out@) =~= plan_enriched(stmts));
        Ok(out)
    }

    /// Analyzes one statement by itself, behind the built-in tables only.
    pub fn analyze_statement(stmt: &Statement) -> (r: Result<Statement, AnalysisError>)
        ensures
            match r {
                Ok(out) => stmt_fault(builtin_tables(), stmt@) is None && out@ == stmt_enriched(
                    stmt@,
                ),
                Err(e) => stmt_fault(builtin_tables(), stmt@) == Some(e@),
            },
    {
        let mut ctx = Ctx::new();
        ctx.analyze_statement(stmt)
    }
}

// ---------------------------------------------------------------------------------------------
// Laws
// ---------------------------------------------------------------------------------------------
/// Enriching a statement does not change what it declares, and gives it no fault.
proof fn lemma_enriched_alike(ctx: CtxV, s: StmtV)
    ensures
        ctx_after(ctx, stmt_enriched(s)) == ctx_after(ctx, s),
        stmt_fault(ctx, s) is None ==> stmt_fault(ctx, stmt_enriched(s)) is None,
        stmt_enriched(stmt_enriched(s)) == stmt_enriched(s),
{
}

proof fn lemma_ctx_enriched(ctx: CtxV, plan: Seq<StmtV>, n: int)
    requires
        0 <= n <= plan.len(),
    ensures
        ctx_at(ctx, plan_enriched(plan), n) == ctx_at(ctx, plan, n),
    decreases n,
{
    if n > 0 {
        lemma_ctx_enriched(ctx, plan, n - 1);
        lemma_enriched_alike(ctx_at(ctx, plan, n - 1), plan[n - 1]);
    }
}

/// Analysis is idempotent: an analyzed plan is faultless again, and analysis leaves it as it is.
pub proof fn law_analysis_is_idempotent(plan: Seq<StmtV>)
    requires
        faultless(builtin_tables(), plan),
    ensures
        faultless(builtin_tables(), plan_enriched(plan)),
        plan_enriched(plan_enriched(plan)) == plan_enriched(plan),
{
    let out = plan_enriched(plan);
    assert forall|i: int| 0 <= i < out.len() implies #[trigger] fault_at(
        builtin_tables(),
        out,
        i,
    ) is None by {
        lemma_ctx_enriched(builtin_tables(), plan, i);
        assert(fault_at(builtin_tables(), plan, i) is None);
        lemma_enriched_alike(ctx_at(builtin_tables(), plan, i), plan[i]);
    }
    assert forall|i: int| 0 <= i < out.len() implies #[trigger] plan_enriched(out)[i]
        == out[i] by {
        lemma_enriched_alike(builtin_tables(), plan[i]);
    }
    assert(plan_enriched(out) =~= out);
}

proof fn lemma_declared(ctx: CtxV, plan: Seq<StmtV>, n: int, table: Seq<char>)
    requires
        0 <= n <= plan.len(),
        ordmap::ascending::<String, ()>(ctx.declared),
    ensures
        ordmap::ascending::<String, ()>(ctx_at(ctx, plan, n).declared),
        declares(ctx_at(ctx, plan, n), table) <==> declares(ctx, table) || exists|i: int|
            0 <= i < n && (#[trigger] plan[i] matches StmtV::CreateTable { table: t, .. } && t
                == table),
    decreases n,
{
    if n > 0 {
        lemma_declared(ctx, plan, n - 1, table);
        let before = ctx_at(ctx, plan, n - 1);
        if let StmtV::CreateTable { table: t, .. } = plan[n - 1] {
            ordmap::lemma_put_ascending::<String, ()>(before.declared, t, ());
            ordmap::lemma_put_lookup_same::<String, ()>(before.declared, t, ());
            if t != table {
                ordmap::lemma_put_lookup_other::<String, ()>(before.declared, t, (), table);
            }
        }
    }
}

/// A plan is faultless only where each table that it selects from or inserts into is built in or
/// declared by an earlier statement of the plan.
pub proof fn law_tables_are_declared_first(plan: Seq<StmtV>, i: int)
    requires
        faultless(builtin_tables(), plan),
        0 <= i < plan.len(),
    ensures
        plan[i] matches StmtV::Select(sel) ==> declares(builtin_tables(), sel.table) || exists|j: int|
            0 <= j < i && (#[trigger] plan[j] matches StmtV::CreateTable { table, .. } && table
                == sel.table),
        plan[i] matches StmtV::Insert(rec) ==> declares(builtin_tables(), rec.id.table) || exists|
            j: int,
        |
            0 <= j < i && (#[trigger] plan[j] matches StmtV::CreateTable { table, .. } && table
                == rec.id.table),
{
    assert(fault_at(builtin_tables(), plan, i) is None);
    let empty = Seq::<(Seq<char>, ())>::empty();
    ordmap::lemma_put_ascending::<String, ()>(empty, "global"@, ());
    ordmap::lemma_put_ascending::<String, ()>(
        ordmap::put::<String, ()>(empty, "global"@, ()),
        "meta"@,
        (),
    );
    if let StmtV::Select(sel) = plan[i] {
        lemma_declared(builtin_tables(), plan, i, sel.table);
    }
    if let StmtV::Insert(rec) = plan[i] {
        lemma_declared(builtin_tables(), plan, i, rec.id.table);
    }
}

/// A selection that analysis accepts and that has a kNN clause has an order, and one that is
/// ordered by similarity has a kNN clause.
pub proof fn law_similarity_goes_with_knn(ctx: CtxV, sel: SelV)
    requires
        stmt_fault(ctx, StmtV::Select(sel)) is None,
    ensures
        sel.knn is Some ==> enriched(sel).order is Some,
        enriched(sel).order == Some(Order::Similarity) ==> sel.knn is Some,
        sel.order is Some ==> enriched(sel) == sel,
{
}

/// The table is there for statement `i` of a plan: it is built in, or an earlier statement creates it.
pub open spec fn known(plan: Seq<StmtV>, i: int, table: Seq<char>) -> bool {
    table == "global"@ || table == "meta"@ || exists|j: int|
        0 <= j < i && (#[trigger] plan[j] matches StmtV::CreateTable { table: t, .. } && t == table)
}

/// Analysis knows a table exactly if it is built in or was created before.
proof fn lemma_known(plan: Seq<StmtV>, i: int, table: Seq<char>)
    requires
        0 <= i <= plan.len(),
    ensures
        declares(ctx_at(builtin_tables(), plan, i), table) <==> known(plan, i, table),
{
    let empty = Seq::<(Seq<char>, ())>::empty();
    let one = ordmap::put::<String, ()>(empty, "global"@, ());
    ordmap::lemma_put_ascending::<String, ()>(empty, "global"@, ());
    ordmap::lemma_put_ascending::<String, ()>(one, "meta"@, ());
    ordmap::lemma_put_lookup_same::<String, ()>(empty, "global"@, ());
    ordmap::lemma_put_lookup_same::<String, ()>(one, "meta"@, ());
    if table != "global"@ {
        ordmap::lemma_put_lookup_other::<String, ()>(empty, "global"@, (), table);
    }
    if table != "meta"@ {
        ordmap::lemma_put_lookup_other::<String, ()>(one, "meta"@, (), table);
    }
    lemma_declared(builtin_tables(), plan, i, table);
}

/// What analysis finds wrong with a statement, said of the plan alone. A record id must have a table
/// and a name that is not empty. A selection needs a table that is known, and a query vector where it
/// is ordered by similarity. Creating a table is always sound.
pub proof fn law_faults_of_a_statement(plan: Seq<StmtV>, i: int)
    requires
        0 <= i < plan.len(),
    ensures
        plan[i] is CreateTable ==> fault_at(builtin_tables(), plan, i) is None,
        plan[i] matches StmtV::Forget { id } ==> fault_at(builtin_tables(), plan, i) == if id.table.len() == 0 {
            Some(AnErrV::EmptyTable)
        } else if id.id is Str && id.id->Str_0.len() == 0 {
            Some(AnErrV::EmptyId { table: id.table })
        } else {
            None
        },
        plan[i] matches StmtV::Match(path) ==> fault_at(builtin_tables(), plan, i) == if path.start.table.len() == 0 {
            Some(AnErrV::EmptyTable)
        } else if path.start.id is Str && path.start.id->Str_0.len() == 0 {
            Some(AnErrV::EmptyId { table: path.start.table })
        } else {
            None
        },
        plan[i] matches StmtV::Closure(path) ==> fault_at(builtin_tables(), plan, i) == if path.start.table.len() == 0 {
            Some(AnErrV::EmptyTable)
        } else if path.start.id is Str && path.start.id->Str_0.len() == 0 {
            Some(AnErrV::EmptyId { table: path.start.table })
        } else {
            None
        },
        plan[i] matches StmtV::Relate(e) ==> fault_at(builtin_tables(), plan, i) == if e.from.table.len()
            == 0 {
            Some(AnErrV::EmptyTable)
        } else if e.from.id is Str && e.from.id->Str_0.len() == 0 {
            Some(AnErrV::EmptyId { table: e.from.table })
        } else if e.to.table.len() == 0 {
            Some(AnErrV::EmptyTable)
        } else if e.to.id is Str && e.to.id->Str_0.len() == 0 {
            Some(AnErrV::EmptyId { table: e.to.table })
        } else {
            None
        },
        plan[i] matches StmtV::Select(sel) ==> fault_at(builtin_tables(), plan, i) == if !known(
            plan,
            i,
            sel.table,
        ) {
            Some(AnErrV::UnknownTableForSelect { table: sel.table })
        } else if sel.order == Some(Order::Similarity) && sel.knn is None {
            Some(AnErrV::SimilarityWithoutKnn)
        } else {
            None
        },
        plan[i] matches StmtV::Insert(rec) ==> {
            let fault = fault_at(builtin_tables(), plan, i);
            &&& rec.id.table.len() == 0 ==> fault == Some(AnErrV::EmptyTable)
            &&& rec.id.table.len() > 0 && rec.id.id is Str && rec.id.id->Str_0.len() == 0 ==> fault
                == Some(AnErrV::EmptyId { table: rec.id.table })
            &&& rec.id.table.len() > 0 && !(rec.id.id is Str && rec.id.id->Str_0.len() == 0)
                && !known(plan, i, rec.id.table) ==> fault == Some(
                AnErrV::UnknownTableForInsert { table: rec.id.table },
            )
            &&& rec.id.table.len() > 0 && !(rec.id.id is Str && rec.id.id->Str_0.len() == 0) && known(
                plan,
                i,
                rec.id.table,
            ) && rec.embedding is None ==> fault is None
        },
{
    if let StmtV::Select(sel) = plan[i] {
        lemma_known(plan, i, sel.table);
    }
    if let StmtV::Insert(rec) = plan[i] {
        lemma_known(plan, i, rec.id.table);
        lemma_empty_name(rec.id);
    }
    if let StmtV::Forget { id } = plan[i] {
        lemma_empty_name(id);
    }
    if let StmtV::Match(path) = plan[i] {
        lemma_empty_name(path.start);
    }
    if let StmtV::Closure(path) = plan[i] {
        lemma_empty_name(path.start);
    }
    if let StmtV::Relate(e) = plan[i] {
        lemma_empty_name(e.from);
        lemma_empty_name(e.to);
    }
}

proof fn lemma_empty_name(r: RidV)
    ensures
        r.id == IdV::Str(Seq::empty()) <==> r.id is Str && r.id->Str_0.len() == 0,
{
    if r.id is Str && r.id->Str_0.len() == 0 {
        assert(r.id->Str_0 =~= Seq::<char>::empty());
    }
}

/// The dimension that analysis knows for a table is that of the last statement that gave it one.
proof fn lemma_known_dim(plan: Seq<StmtV>, n: int, table: Seq<char>)
    requires
        0 <= n <= plan.len(),
    ensures
        ordmap::ascending::<String, usize>(ctx_at(builtin_tables(), plan, n).vector_dims),
        match ordmap::lookup::<String, usize>(ctx_at(builtin_tables(), plan, n).vector_dims, table) {
            Some(d) => exists|j: int|
                0 <= j < n && (#[trigger] plan[j]) == (StmtV::CreateTable {
                    table,
                    vector_dim: Some(d),
                }) && forall|k: int|
                    j < k < n ==> !(#[trigger] plan[k] matches StmtV::CreateTable {
                        table: t,
                        vector_dim: Some(_),
                    } && t == table),
            None => forall|k: int|
                0 <= k < n ==> !(#[trigger] plan[k] matches StmtV::CreateTable {
                    table: t,
                    vector_dim: Some(_),
                } && t == table),
        },
    decreases n,
{
    if n > 0 {
        lemma_known_dim(plan, n - 1, table);
        let before = ctx_at(builtin_tables(), plan, n - 1);
        if let StmtV::CreateTable { table: t, vector_dim: Some(d) } = plan[n - 1] {
            ordmap::lemma_put_ascending::<String, usize>(before.vector_dims, t, d);
            ordmap::lemma_put_lookup_same::<String, usize>(before.vector_dims, t, d);
            if t != table {
                ordmap::lemma_put_lookup_other::<String, usize>(before.vector_dims, t, d, table);
            } else {
                assert(plan[n - 1] == (StmtV::CreateTable { table, vector_dim: Some(d) }));
            }
        }
        let now = ctx_at(builtin_tables(), plan, n).vector_dims;
        if ordmap::lookup::<String, usize>(now, table) is Some && !(plan[n - 1] matches StmtV::CreateTable {
            table: t,
            vector_dim: Some(_),
        } && t == table) {
            let d = ordmap::lookup::<String, usize>(now, table)->0;
            let j = choose|j: int|
                0 <= j < n - 1 && (#[trigger] plan[j]) == (StmtV::CreateTable {
                    table,
                    vector_dim: Some(d),
                }) && forall|k: int|
                    j < k < n - 1 ==> !(#[trigger] plan[k] matches StmtV::CreateTable {
                        table: t,
                        vector_dim: Some(_),
                    } && t == table);
            assert(plan[j] == (StmtV::CreateTable { table, vector_dim: Some(d) }));
        }
    }
}

/// Inserting an embedding into a known table, under a sound id, is a fault exactly if the last
/// statement before that gave the table a dimension gave it another one; the fault names the table
/// and both lengths. Where no statement gave it a dimension, any embedding is sound.
pub proof fn law_faults_of_an_embedding(plan: Seq<StmtV>, i: int, rec: RecV, j: int, d: usize)
    requires
        0 <= i < plan.len(),
        plan[i] == StmtV::Insert(rec),
        rec.embedding is Some,
        rec.id.table.len() > 0,
        !(rec.id.id is Str && rec.id.id->Str_0.len() == 0),
        known(plan, i, rec.id.table),
    ensures
        0 <= j < i && plan[j] == (StmtV::CreateTable { table: rec.id.table, vector_dim: Some(d) })
            && (forall|k: int|
            j < k < i ==> !(#[trigger] plan[k] matches StmtV::CreateTable {
                table: t,
                vector_dim: Some(_),
            } && t == rec.id.table)) ==> fault_at(builtin_tables(), plan, i) == if rec.embedding->0.len()
            != d {
            Some(
                AnErrV::EmbeddingDimMismatch {
                    table: rec.id.table,
                    expected: d,
                    actual: rec.embedding->0.len() as usize,
                },
            )
        } else {
            None
        },
        (forall|k: int|
            0 <= k < i ==> !(#[trigger] plan[k] matches StmtV::CreateTable {
                table: t,
                vector_dim: Some(_),
            } && t == rec.id.table)) ==> fault_at(builtin_tables(), plan, i) is None,
{
    lemma_known(plan, i, rec.id.table);
    lemma_empty_name(rec.id);
    lemma_known_dim(plan, i, rec.id.table);
    let found = ordmap::lookup::<String, usize>(
        ctx_at(builtin_tables(), plan, i).vector_dims,
        rec.id.table,
    );
    if found is Some {
        let b = choose|b: int|
            0 <= b < i && (#[trigger] plan[b]) == (StmtV::CreateTable {
                table: rec.id.table,
                vector_dim: Some(found->0),
            }) && forall|k: int|
                b < k < i ==> !(#[trigger] plan[k] matches StmtV::CreateTable {
                    table: t,
                    vector_dim: Some(_),
                } && t == rec.id.table);
        if 0 <= j < i && plan[j] == (StmtV::CreateTable {
            table: rec.id.table,
            vector_dim: Some(d),
        }) && (forall|k: int|
            j < k < i ==> !(#[trigger] plan[k] matches StmtV::CreateTable {
                table: t,
                vector_dim: Some(_),
            } && t == rec.id.table)) {
            if b < j {
                assert(plan[j] is CreateTable);
            } else if j < b {
                assert(plan[b] is CreateTable);
            }
            assert(found->0 == d);
        }
        assert(plan[b] is CreateTable);
    }
}

/// What analysis makes of a plan: the same statements, in their order, but that a selection with a
/// nearest-neighbour clause and no order is ordered by similarity.
pub proof fn law_analysis_only_adds_the_order(plan: Seq<StmtV>, i: int)
    requires
        0 <= i < plan.len(),
    ensures
        plan_enriched(plan).len() == plan.len(),
        !(plan[i] is Select) ==> plan_enriched(plan)[i] == plan[i],
        plan[i] matches StmtV::Select(sel) ==> (sel.knn is None || sel.order is Some)
            ==> plan_enriched(plan)[i] == plan[i],
        plan[i] matches StmtV::Select(sel) ==> sel.knn is Some && sel.order is None ==> plan_enriched(
            plan,
        )[i] == StmtV::Select(
            SelV {
                table: sel.table,
                knn: sel.knn,
                filter: sel.filter,
                order: Some(Order::Similarity),
                limit: sel.limit,
                as_of: sel.as_of,
            },
        ),
{
}

/// A statement by itself has the faults that it has as the only one of a plan.
pub proof fn law_statement_alone(stmt: StmtV)
    ensures
        stmt_fault(builtin_tables(), stmt) == fault_at(builtin_tables(), seq![stmt], 0),
        plan_enriched(seq![stmt]) == seq![stmt_enriched(stmt)],
{
    assert(ctx_at(builtin_tables(), seq![stmt], 0) == builtin_tables());
    assert(plan_enriched(seq![stmt]) =~= seq![stmt_enriched(stmt)]);
}

/// What an error of analysis says: the statement and the table that it needs; the dimension that was got
/// and the one that is declared; what an order needs; what a record id lacks.
pub proof fn law_analysis_errors_say(table: Seq<char>, expected: usize, actual: usize)
    ensures
        analysis_error_text(AnErrV::UnknownTableForSelect { table }) == "SELECT on table `"@ + table
            + "` requires a prior CREATE TABLE statement or a built-in table"@,
        analysis_error_text(AnErrV::UnknownTableForInsert { table }) == "INSERT into table `"@ + table
            + "` requires a prior CREATE TABLE statement or a built-in table"@,
        analysis_error_text(AnErrV::EmbeddingDimMismatch { table, expected, actual })
            == "INSERT into `"@ + table + "` has embedding of dimension "@ + text::dec_text(
            actual as nat,
        ) + ", but the table declares VECTOR<f32, "@ + text::dec_text(expected as nat) + ">"@,
        analysis_error_text(AnErrV::SimilarityWithoutKnn)
            == "ORDER BY similarity requires a kNN query vector (WHERE vector::similarity(...))"@,
        analysis_error_text(AnErrV::EmptyTable) == "record id table must not be empty"@,
        analysis_error_text(AnErrV::EmptyId { table }) == "record id in table `"@ + table
            + "` has an empty id string"@,
{
}

} // verus!
