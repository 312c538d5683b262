//! The tools for agents: each takes parameters, works on the database, and replies with a text or a
//! JSON document.
//!
//! A tool first makes a statement of its parameters, and refuses those of which it cannot; the
//! statement then runs as a plan of its own. A reply that starts with `ERR` is a refusal, and then
//! nothing has changed.
use vstd::prelude::*;

use crate::database;
use crate::database::Database;
#[allow(unused_imports)]
use crate::database::DbV;
use crate::engine;
use crate::engine::{QueryKind, QueryResult};
#[allow(unused_imports)]
use crate::engine::{KindV, ResV};
use crate::error;
#[allow(unused_imports)]
use crate::error::ErrorV;
use crate::ir;
use crate::ir::{
    Body, Filter, Knn, MatchDirection, MatchPath, MatchStep, Order, Record, RecordId, RelationEdge,
    Select, Statement,
};
#[allow(unused_imports)]
use crate::ir::{BodyV, EdgeV, FilV, KnnV, PathV, RecV, RidV, SelV, StepV, StmtV};
use crate::json;
use crate::json::Json;
#[allow(unused_imports)]
use crate::json::JsonV;
use crate::number;
use crate::number::{Form, Numeral};
#[allow(unused_imports)]
use crate::number::{FormV, NumeralV};
use crate::ordmap;
use crate::ordmap::OrdMap;
use crate::parser;
use crate::score;
use crate::score::ScoreTask;
#[allow(unused_imports)]
use crate::score::Scoring;
use crate::select::ScoredRecord;
#[allow(unused_imports)]
use crate::select::RowV;
use crate::text;

verus! {

// ---------------------------------------------------------------------------------------------
// Parameters
// ---------------------------------------------------------------------------------------------
/// To run a program.
#[derive(Debug)]
pub struct ExecuteNqlParams {
    /// Statements, separated by semicolons.
    pub program: String,
}

/// To declare a table.
#[derive(Debug)]
pub struct CreateTableParams {
    pub table: String,
    /// The dimension of its embeddings.
    pub vector_dim: Option<usize>,
}

/// To insert a record, or replace it.
#[derive(Debug)]
pub struct InsertParams {
    /// The record id, `table:id`.
    pub id: String,
    /// The document, a JSON object.
    pub body: Json,
    /// The embedding, a JSON array of numbers.
    pub embedding: Option<Json>,
}

/// To add an edge.
#[derive(Debug)]
pub struct RelateParams {
    /// Where it starts, `table:id`.
    pub from: String,
    /// Its name, with or without leading colons.
    pub name: String,
    /// Where it ends, `table:id`.
    pub to: String,
    /// Its weight, a single.
    pub weight: Option<u32>,
    /// Its properties, a JSON object.
    pub props: Option<Json>,
}

/// To delete a record and the edges at it.
#[derive(Debug)]
pub struct ForgetParams {
    /// The record id, `table:id`.
    pub id: String,
}

/// To select records of a table.
#[derive(Debug)]
pub struct SelectParams {
    pub table: String,
    /// The field of an equality filter.
    pub field: Option<String>,
    /// The value of an equality filter.
    pub value: Option<Json>,
    /// The query vector of a nearest-neighbour clause, a JSON array of numbers.
    pub query: Option<Json>,
    /// The number of neighbours; 10 where it is not given, and at least 1.
    pub k: Option<usize>,
    /// The name of an order.
    pub order_by: Option<String>,
    /// The row limit.
    pub limit: Option<usize>,
}

/// To walk a path.
#[derive(Debug)]
pub struct MatchParams {
    /// Where it starts, `table:id`.
    pub start: String,
    /// Its steps, a JSON array of objects: a `direction`, `"out"` or `"in"`; the `name` of the edges;
    /// and perhaps a `where` with a `field` and a `value`.
    pub steps: Json,
}

/// The record id that a text spells.
pub open spec fn rid_of(s: Seq<char>) -> Result<RidV, Seq<char>> {
    match ir::parse_rid(s) {
        Some(r) => Ok(r),
        None => Err("invalid record id `"@ + s + "` (expected table:id)"@),
    }
}

/// All are numbers.
pub open spec fn all_numbers(a: Seq<JsonV>) -> bool {
    forall|i: int| 0 <= i < a.len() ==> (#[trigger] a[i]) is Int || a[i] is Float
}

/// The vector that an array of numbers stands for.
pub open spec fn embedding_of(g: spec_fn(NumeralV) -> FormV, j: JsonV) -> Result<
    Seq<u32>,
    Seq<char>,
> {
    match j {
        JsonV::Arr(a) => if all_numbers(a) {
            Ok(Seq::new(a.len(), |i: int| json::json_single(g, a[i])->0))
        } else {
            Err("embedding entries must be numbers"@)
        },
        _ => Err("embedding must be a JSON array of numbers"@),
    }
}

/// The document that an object stands for.
pub open spec fn body_of(g: spec_fn(NumeralV) -> FormV, j: JsonV) -> Result<BodyV, Seq<char>> {
    match json::json_body(g, j) {
        Some(b) => Ok(b),
        None => Err("body must be a JSON object"@),
    }
}

/// Reads a record id.
pub fn parse_rid(s: &str) -> (r: Result<RecordId, String>)
    ensures
        match r {
            Ok(id) => rid_of(s@) == Ok::<RidV, Seq<char>>(id@),
            Err(m) => rid_of(s@) == Err::<RidV, Seq<char>>(m@),
        },
{
    match RecordId::parse(s) {
        Some(id) => Ok(id),
        None => Err(text::join3("invalid record id `", s, "` (expected table:id)")),
    }
}

/// Reads a vector.
pub fn parse_embedding<N: Fn(Numeral) -> Form>(j: &Json, forms: &N) -> (r: Result<Vec<u32>, String>)
    requires
        number::takes_numerals(*forms),
    ensures
        forall|g: spec_fn(NumeralV) -> FormV| #[trigger]
            number::forms_by(*forms, g) ==> match r {
                Ok(v) => embedding_of(g, j@) == Ok::<Seq<u32>, Seq<char>>(v@),
                Err(m) => embedding_of(g, j@) == Err::<Seq<u32>, Seq<char>>(m@),
            },
{
    match j {
        Json::Arr(a) => {
            proof {
                json::lemma_arr_view(*a);
            }
            let ghost av = ordmap::views(a@);
            let mut out: Vec<u32> = Vec::new();
            let mut i: usize = 0;
            while i < a.len()
                invariant
                    number::takes_numerals(*forms),
                    i <= a.len(),
                    av == ordmap::views(a@),
                    j@ == JsonV::Arr(av),
                    out.len() == i,
                    forall|k: int| 0 <= k < i ==> (#[trigger] av[k]) is Int || av[k] is Float,
                    forall|g: spec_fn(NumeralV) -> FormV, k: int|
                        #![trigger number::forms_by(*forms, g), out@[k]]
                        number::forms_by(*forms, g) && 0 <= k < i ==> Some(out@[k])
                            == json::json_single(g, av[k]),
                decreases a.len() - i,
            {
                assert(av[i as int] == a@[i as int]@);
                match json::json_to_single(&a[i], forms) {
                    Some(x) => {
                        out.push(x);
                    },
                    None => {
                        assert(!all_numbers(av));
                        return Err(text::owned("embedding entries must be numbers"));
                    },
                }
                i = i + 1;
            }
            proof {
                assert forall|g: spec_fn(NumeralV) -> FormV| #[trigger]
                    number::forms_by(*forms, g) implies out@ == Seq::new(
                    av.len(),
                    |i: int| json::json_single(g, av[i])->0,
                ) by {
                    assert forall|k: int| 0 <= k < av.len() implies Some(out@[k])
                        == #[trigger] json::json_single(g, av[k]) by {
                        assert(out@[k] == out@[k]);
                    }
                    assert(out@ =~= Seq::new(av.len(), |i: int| json::json_single(g, av[i])->0));
                }
            }
            Ok(out)
        },
        _ => Err(text::owned("embedding must be a JSON array of numbers")),
    }
}

/// Reads a document.
pub fn parse_body<N: Fn(Numeral) -> Form>(j: &Json, forms: &N) -> (r: Result<Body, String>)
    requires
        number::takes_numerals(*forms),
    ensures
        forall|g: spec_fn(NumeralV) -> FormV| #[trigger]
            number::forms_by(*forms, g) ==> match r {
                Ok(b) => body_of(g, j@) == Ok::<BodyV, Seq<char>>(b@),
                Err(m) => body_of(g, j@) == Err::<BodyV, Seq<char>>(m@),
            },
{
    match json::json_to_body(j, forms) {
        Some(b) => Ok(b),
        None => Err(text::owned("body must be a JSON object")),
    }
}

// ---------------------------------------------------------------------------------------------
// Steps
// ---------------------------------------------------------------------------------------------
/// The text of a string member.
pub open spec fn text_member(j: JsonV, name: Seq<char>) -> Option<Seq<char>> {
    match json::member(j, name) {
        Some(JsonV::Str(s)) => Some(s),
        _ => None,
    }
}

/// The direction of a step.
pub open spec fn direction_of(s: JsonV) -> Result<MatchDirection, Seq<char>> {
    match text_member(s, "direction"@) {
        Some(d) => if d == "out"@ {
            Ok(MatchDirection::Out)
        } else if d == "in"@ {
            Ok(MatchDirection::In)
        } else {
            Err("direction must be \"out\" or \"in\", got `"@ + d + "`"@)
        },
        None => Err("step missing `direction`"@),
    }
}

/// The condition of a step.
pub open spec fn condition_of(g: spec_fn(NumeralV) -> FormV, s: JsonV) -> Result<
    Option<FilV>,
    Seq<char>,
> {
    match json::member(s, "where"@) {
        None => Ok(None),
        Some(w) => match text_member(w, "field"@) {
            None => Err("where missing `field`"@),
            Some(field) => match json::member(w, "value"@) {
                None => Err("where missing `value`"@),
                Some(v) => Ok(
                    Some(FilV::FieldEquals { field, value: json::json_value(g, v) }),
                ),
            },
        },
    }
}

/// The step that an object stands for.
pub open spec fn step_of(g: spec_fn(NumeralV) -> FormV, s: JsonV) -> Result<StepV, Seq<char>> {
    match direction_of(s) {
        Err(m) => Err(m),
        Ok(direction) => match text_member(s, "name"@) {
            None => Err("step missing `name`"@),
            Some(name) => match condition_of(g, s) {
                Err(m) => Err(m),
                Ok(edge_props) => Ok(
                    StepV { direction, name: text::without_leading(name, ':'), edge_props },
                ),
            },
        },
    }
}

/// The first `n` steps, or what is wrong with the first that is none.
pub open spec fn first_steps(g: spec_fn(NumeralV) -> FormV, a: Seq<JsonV>, n: int) -> Result<
    Seq<StepV>,
    Seq<char>,
>
    decreases n,
{
    if n <= 0 {
        Ok(Seq::empty())
    } else {
        match first_steps(g, a, n - 1) {
            Err(m) => Err(m),
            Ok(steps) => match step_of(g, a[n - 1]) {
                Err(m) => Err(m),
                Ok(step) => Ok(steps.push(step)),
            },
        }
    }
}

/// The steps that an array stands for.
pub open spec fn steps_of(g: spec_fn(NumeralV) -> FormV, j: JsonV) -> Result<
    Seq<StepV>,
    Seq<char>,
> {
    match j {
        JsonV::Arr(a) => if a.len() == 0 {
            Err("steps must contain at least one hop"@)
        } else {
            first_steps(g, a, a.len() as int)
        },
        _ => Err("steps must be a JSON array"@),
    }
}

fn get_text<'a>(j: &'a Json, name: &str) -> (r: Option<&'a String>)
    ensures
        match r {
            Some(s) => text_member(j@, name@) == Some(s@),
            None => text_member(j@, name@) is None,
        },
{
    match json::get_member(j, name) {
        Some(m) => match m {
            Json::Str(s) => Some(s),
            _ => None,
        },
        None => None,
    }
}

fn parse_direction(s: &Json) -> (r: Result<MatchDirection, String>)
    ensures
        match r {
            Ok(d) => direction_of(s@) == Ok::<MatchDirection, Seq<char>>(d),
            Err(m) => direction_of(s@) == Err::<MatchDirection, Seq<char>>(m@),
        },
{
    match get_text(s, "direction") {
        Some(d) => if text::text_same(d.as_str(), "out") {
            Ok(MatchDirection::Out)
        } else if text::text_same(d.as_str(), "in") {
            Ok(MatchDirection::In)
        } else {
            Err(text::join3("direction must be \"out\" or \"in\", got `", d.as_str(), "`"))
        },
        None => Err(text::owned("step missing `direction`")),
    }
}

fn parse_condition<N: Fn(Numeral) -> Form>(s: &Json, forms: &N) -> (r: Result<
    Option<Filter>,
    String,
>)
    requires
        number::takes_numerals(*forms),
    ensures
        forall|g: spec_fn(NumeralV) -> FormV| #[trigger]
            number::forms_by(*forms, g) ==> match r {
                Ok(c) => condition_of(g, s@) == Ok::<Option<FilV>, Seq<char>>(
                    ordmap::opt_view(c),
                ),
                Err(m) => condition_of(g, s@) == Err::<Option<FilV>, Seq<char>>(m@),
            },
{
    let w = match json::get_member(s, "where") {
        Some(w) => w,
        None => return Ok(None),
    };
    let field = match get_text(w, "field") {
        Some(field) => text::owned(field.as_str()),
        None => return Err(text::owned("where missing `field`")),
    };
    match json::get_member(w, "value") {
        Some(v) => {
            let value = json::json_to_value(v, forms);
            Ok(Some(Filter::FieldEquals { field, value }))
        },
        None => Err(text::owned("where missing `value`")),
    }
}

fn parse_step<N: Fn(Numeral) -> Form>(s: &Json, forms: &N) -> (r: Result<MatchStep, String>)
    requires
        number::takes_numerals(*forms),
    ensures
        forall|g: spec_fn(NumeralV) -> FormV| #[trigger]
            number::forms_by(*forms, g) ==> match r {
                Ok(step) => step_of(g, s@) == Ok::<StepV, Seq<char>>(step@),
                Err(m) => step_of(g, s@) == Err::<StepV, Seq<char>>(m@),
            },
{
    let direction = match parse_direction(s) {
        Ok(d) => d,
        Err(m) => return Err(m),
    };
    let name = match get_text(s, "name") {
        Some(n) => text::trim_start(n.as_str(), ':'),
        None => return Err(text::owned("step missing `name`")),
    };
    match parse_condition(s, forms) {
        Ok(edge_props) => Ok(MatchStep { direction, name, edge_props }),
        Err(m) => Err(m),
    }
}

/// Reads the steps of a path.
pub fn parse_steps<N: Fn(Numeral) -> Form>(j: &Json, forms: &N) -> (r: Result<
    Vec<MatchStep>,
    String,
>)
    requires
        number::takes_numerals(*forms),
    ensures
        forall|g: spec_fn(NumeralV) -> FormV| #[trigger]
            number::forms_by(*forms, g) ==> match r {
                Ok(steps) => steps_of(g, j@) == Ok::<Seq<StepV>, Seq<char>>(
                    ordmap::views(steps@),
                ),
                Err(m) => steps_of(g, j@) == Err::<Seq<StepV>, Seq<char>>(m@),
            },
{
    match j {
        Json::Arr(a) => {
            proof {
                json::lemma_arr_view(*a);
            }
            let ghost av = ordmap::views(a@);
            if a.len() == 0 {
                return Err(text::owned("steps must contain at least one hop"));
            }
            let mut out: Vec<MatchStep> = Vec::new();
            let mut i: usize = 0;
            assert(ordmap::views(out@) =~= Seq::<StepV>::empty());
            while i < a.len()
                invariant
                    number::takes_numerals(*forms),
                    i <= a.len(),
                    av == ordmap::views(a@),
                    av.len() > 0,
                    j@ == JsonV::Arr(av),
                    forall|g: spec_fn(NumeralV) -> FormV| #[trigger]
                        number::forms_by(*forms, g) ==> first_steps(g, av, i as int) == Ok::<
                            Seq<StepV>,
                            Seq<char>,
                        >(ordmap::views(out@)),
                decreases a.len() - i,
            {
                assert(av[i as int] == a@[i as int]@);
                match parse_step(&a[i], forms) {
                    Ok(step) => {
                        let ghost before = ordmap::views(out@);
                        let ghost sv = step@;
                        out.push(step);
                        assert(ordmap::views(out@) =~= before.push(sv));
                    },
                    Err(m) => {
                        proof {
                            assert forall|g: spec_fn(NumeralV) -> FormV| #[trigger]
                                number::forms_by(*forms, g) implies steps_of(g, j@) == Err::<
                                Seq<StepV>,
                                Seq<char>,
                            >(m@) by {
                                assert(first_steps(g, av, i + 1) == Err::<Seq<StepV>, Seq<char>>(
                                    m@,
                                ));
                                lemma_steps_fail(g, av, i + 1, av.len() as int);
                            }
                        }
                        return Err(m);
                    },
                }
                i = i + 1;
            }
            Ok(out)
        },
        _ => Err(text::owned("steps must be a JSON array")),
    }
}

proof fn lemma_steps_fail(g: spec_fn(NumeralV) -> FormV, a: Seq<JsonV>, m: int, n: int)
    requires
        m <= n,
        first_steps(g, a, m) is Err,
    ensures
        first_steps(g, a, n) == first_steps(g, a, m),
    decreases n - m,
{
    if m < n {
        lemma_steps_fail(g, a, m, n - 1);
    }
}

// ---------------------------------------------------------------------------------------------
// Statements
// ---------------------------------------------------------------------------------------------
/// The insertion that the parameters ask for.
pub open spec fn insertion(g: spec_fn(NumeralV) -> FormV, p: InsertParams) -> Result<
    StmtV,
    Seq<char>,
> {
    match rid_of(p.id@) {
        Err(m) => Err(m),
        Ok(id) => match body_of(g, p.body@) {
            Err(m) => Err(m),
            Ok(body) => match p.embedding {
                None => Ok(StmtV::Insert(RecV { id, body, embedding: None, created_at: 0 })),
                Some(j) => match embedding_of(g, j@) {
                    Err(m) => Err(m),
                    Ok(v) => Ok(
                        StmtV::Insert(RecV { id, body, embedding: Some(v), created_at: 0 }),
                    ),
                },
            },
        },
    }
}

/// The edge that the parameters ask for.
pub open spec fn relation(g: spec_fn(NumeralV) -> FormV, p: RelateParams) -> Result<
    StmtV,
    Seq<char>,
> {
    let edge = |from: RidV, to: RidV, props: BodyV|
        StmtV::Relate(
            EdgeV {
                from,
                name: text::without_leading(p.name@, ':'),
                to,
                created_at: 0,
                weight: p.weight,
                props,
            },
        );
    match rid_of(p.from@) {
        Err(m) => Err(m),
        Ok(from) => match rid_of(p.to@) {
            Err(m) => Err(m),
            Ok(to) => match p.props {
                None => Ok(edge(from, to, Seq::empty())),
                Some(j) => match body_of(g, j@) {
                    Err(m) => Err(m),
                    Ok(props) => Ok(edge(from, to, props)),
                },
            },
        },
    }
}

/// The deletion that the parameters ask for.
pub open spec fn deletion(p: ForgetParams) -> Result<StmtV, Seq<char>> {
    match rid_of(p.id@) {
        Err(m) => Err(m),
        Ok(id) => Ok(StmtV::Forget { id }),
    }
}

/// The nearest-neighbour clause that the parameters ask for.
pub open spec fn neighbours(g: spec_fn(NumeralV) -> FormV, p: SelectParams) -> Result<
    Option<KnnV>,
    Seq<char>,
> {
    match p.query {
        None => Ok(None),
        Some(j) => match embedding_of(g, j@) {
            Err(m) => Err(m),
            Ok(query) => Ok(
                Some(
                    KnnV {
                        query,
                        k: match p.k {
                            None => 10,
                            Some(k) => if k == 0 {
                                1
                            } else {
                                k
                            },
                        },
                    },
                ),
            ),
        },
    }
}

/// The order that the parameters ask for.
pub open spec fn ordering(p: SelectParams) -> Result<Option<Order>, Seq<char>> {
    match p.order_by {
        None => Ok(None),
        Some(o) => match parser::order_named(o@) {
            Some(order) => Ok(Some(order)),
            None => Err("unknown ORDER BY `"@ + text::lower(o@) + "`"@),
        },
    }
}

/// The selection that the parameters ask for.
pub open spec fn selection(g: spec_fn(NumeralV) -> FormV, p: SelectParams) -> Result<
    StmtV,
    Seq<char>,
> {
    let filter = match (p.field, p.value) {
        (Some(f), Some(v)) => Some(
            FilV::FieldEquals { field: f@, value: json::json_value(g, v@) },
        ),
        _ => None,
    };
    match neighbours(g, p) {
        Err(m) => Err(m),
        Ok(knn) => match ordering(p) {
            Err(m) => Err(m),
            Ok(order) => Ok(
                StmtV::Select(
                    SelV { table: p.table@, knn, filter, order, limit: p.limit, as_of: None },
                ),
            ),
        },
    }
}

/// The path that the parameters ask for.
pub open spec fn walk_path(g: spec_fn(NumeralV) -> FormV, p: MatchParams) -> Result<
    PathV,
    Seq<char>,
> {
    match rid_of(p.start@) {
        Err(m) => Err(m),
        Ok(start) => match steps_of(g, p.steps@) {
            Err(m) => Err(m),
            Ok(steps) => Ok(PathV { start, steps }),
        },
    }
}

/// The statement made of a path.
pub open spec fn on_path(closure: bool, p: Result<PathV, Seq<char>>) -> Result<StmtV, Seq<char>> {
    match p {
        Err(m) => Err(m),
        Ok(path) => Ok(
            if closure {
                StmtV::Closure(path)
            } else {
                StmtV::Match(path)
            },
        ),
    }
}

/// A made statement, as a mathematical value.
pub open spec fn made(r: Result<Statement, String>) -> Result<StmtV, Seq<char>> {
    match r {
        Ok(s) => Ok(s@),
        Err(m) => Err(m@),
    }
}

/// Makes the insertion that the parameters ask for.
pub fn insert_statement<N: Fn(Numeral) -> Form>(p: &InsertParams, forms: &N) -> (r: Result<
    Statement,
    String,
>)
    requires
        number::takes_numerals(*forms),
    ensures
        forall|g: spec_fn(NumeralV) -> FormV| #[trigger]
            number::forms_by(*forms, g) ==> made(r) == insertion(g, *p),
{
    let id = match parse_rid(p.id.as_str()) {
        Ok(id) => id,
        Err(m) => return Err(m),
    };
    let body = match parse_body(&p.body, forms) {
        Ok(body) => body,
        Err(m) => return Err(m),
    };
    let embedding = match &p.embedding {
        Some(j) => match parse_embedding(j, forms) {
            Ok(v) => Some(v),
            Err(m) => return Err(m),
        },
        None => None,
    };
    Ok(Statement::Insert(Record { id, body, embedding, created_at: 0 }))
}

/// Makes the edge that the parameters ask for.
pub fn relate_statement<N: Fn(Numeral) -> Form>(p: &RelateParams, forms: &N) -> (r: Result<
    Statement,
    String,
>)
    requires
        number::takes_numerals(*forms),
    ensures
        forall|g: spec_fn(NumeralV) -> FormV| #[trigger]
            number::forms_by(*forms, g) ==> made(r) == relation(g, *p),
{
    let from = match parse_rid(p.from.as_str()) {
        Ok(id) => id,
        Err(m) => return Err(m),
    };
    let to = match parse_rid(p.to.as_str()) {
        Ok(id) => id,
        Err(m) => return Err(m),
    };
    let name = text::trim_start(p.name.as_str(), ':');
    let props = match &p.props {
        Some(j) => match parse_body(j, forms) {
            Ok(body) => body,
            Err(m) => return Err(m),
        },
        None => OrdMap::new(),
    };
    Ok(Statement::Relate(RelationEdge { from, name, to, created_at: 0, weight: p.weight, props }))
}

/// Makes the deletion that the parameters ask for.
pub fn forget_statement(p: &ForgetParams) -> (r: Result<Statement, String>)
    ensures
        made(r) == deletion(*p),
{
    match parse_rid(p.id.as_str()) {
        Ok(id) => Ok(Statement::Forget { id }),
        Err(m) => Err(m),
    }
}

/// Makes the selection that the parameters ask for.
pub fn select_statement<N: Fn(Numeral) -> Form>(p: &SelectParams, forms: &N) -> (r: Result<
    Statement,
    String,
>)
    requires
        number::takes_numerals(*forms),
    ensures
        forall|g: spec_fn(NumeralV) -> FormV| #[trigger]
            number::forms_by(*forms, g) ==> made(r) == selection(g, *p),
{
    let knn = match &p.query {
        Some(j) => match parse_embedding(j, forms) {
            Ok(query) => {
                let k: usize = match p.k {
                    None => 10,
                    Some(k) => if k == 0 {
                        1
                    } else {
                        k
                    },
                };
                Some(Knn { query, k })
            },
            Err(m) => return Err(m),
        },
        None => None,
    };
    let filter = match (&p.field, &p.value) {
        (Some(f), Some(v)) => {
            let value = json::json_to_value(v, forms);
            Some(Filter::FieldEquals { field: text::owned(f.as_str()), value })
        },
        _ => None,
    };
    let order = match &p.order_by {
        Some(o) => match parser::order_of(o.as_str()) {
            Some(order) => Some(order),
            None => {
                let name = text::ascii_lower(o.as_str());
                return Err(text::join3("unknown ORDER BY `", name.as_str(), "`"));
            },
        },
        None => None,
    };
    Ok(
        Statement::Select(
            Select {
                table: text::owned(p.table.as_str()),
                knn,
                filter,
                order,
                limit: p.limit,
                as_of: None,
            },
        ),
    )
}

/// Makes the walk that the parameters ask for: of the path, or of all that it reaches.
pub fn walk_statement<N: Fn(Numeral) -> Form>(p: &MatchParams, closure: bool, forms: &N) -> (r:
    Result<Statement, String>)
    requires
        number::takes_numerals(*forms),
    ensures
        forall|g: spec_fn(NumeralV) -> FormV| #[trigger]
            number::forms_by(*forms, g) ==> made(r) == on_path(closure, walk_path(g, *p)),
{
    let start = match parse_rid(p.start.as_str()) {
        Ok(id) => id,
        Err(m) => return Err(m),
    };
    let steps = match parse_steps(&p.steps, forms) {
        Ok(steps) => steps,
        Err(m) => return Err(m),
    };
    let path = MatchPath { start, steps };
    Ok(
        if closure {
            Statement::Closure(path)
        } else {
            Statement::Match(path)
        },
    )
}

// ---------------------------------------------------------------------------------------------
// Replies
// ---------------------------------------------------------------------------------------------
/// What a tool replies with.
#[derive(Debug, PartialEq)]
pub enum Reply {
    Text(String),
    Doc(Json),
}

#[verifier::ext_equal]
pub enum ReplyV {
    Text(Seq<char>),
    Doc(JsonV),
}

impl View for Reply {
    type V = ReplyV;

    open spec fn view(&self) -> ReplyV {
        match *self {
            Reply::Text(s) => ReplyV::Text(s@),
            Reply::Doc(j) => ReplyV::Doc(j@),
        }
    }
}

/// What a call of a tool gave: the reply, and the statements that are to be added to the log.
#[derive(Debug)]
pub struct Called {
    pub reply: Reply,
    pub log: Vec<Statement>,
}

/// An object with one member more.
pub open spec fn with_member(o: json::MembersV, name: Seq<char>, j: JsonV) -> json::MembersV {
    ordmap::put::<String, JsonV>(o, name, j)
}

/// A row as an object: its id, its score and its document.
pub open spec fn row_json(g: spec_fn(NumeralV) -> FormV, row: RowV) -> JsonV {
    let id = with_member(Seq::empty(), "id"@, JsonV::Str(ir::rid_text(row.record.id)));
    let score = with_member(id, "score"@, json::single_json(g, row.score));
    JsonV::Obj(with_member(score, "body"@, JsonV::Obj(json::body_json(g, row.record.body))))
}

/// Rows as an array of objects.
pub open spec fn rows_json(g: spec_fn(NumeralV) -> FormV, rows: Seq<RowV>) -> JsonV {
    JsonV::Arr(Seq::new(rows.len(), |i: int| row_json(g, rows[i])))
}

/// The reply of a tool that reads: an object with the rows.
pub open spec fn rows_reply(g: spec_fn(NumeralV) -> FormV, rows: Seq<RowV>) -> JsonV {
    JsonV::Obj(with_member(Seq::empty(), "rows"@, rows_json(g, rows)))
}

/// What a result is of: the table that was selected from, or where the path starts.
pub open spec fn kind_text(k: KindV) -> Seq<char> {
    match k {
        KindV::Select(sel) => "SELECT "@ + sel.table,
        KindV::Match(p) => "MATCH "@ + ir::rid_text(p.start),
        KindV::Closure(p) => "CLOSURE "@ + ir::rid_text(p.start),
    }
}

/// A result as an object: what it is of, and the rows.
pub open spec fn result_json(g: spec_fn(NumeralV) -> FormV, res: ResV) -> JsonV {
    let kind = with_member(Seq::empty(), "kind"@, JsonV::Str(kind_text(res.kind)));
    JsonV::Obj(with_member(kind, "rows"@, rows_json(g, res.rows)))
}

/// Results as an array of objects.
pub open spec fn results_json(g: spec_fn(NumeralV) -> FormV, results: Seq<ResV>) -> JsonV {
    JsonV::Arr(Seq::new(results.len(), |i: int| result_json(g, results[i])))
}

fn row_doc<N: Fn(Numeral) -> Form>(row: &ScoredRecord, forms: &N) -> (r: Json)
    requires
        number::takes_numerals(*forms),
    ensures
        forall|g: spec_fn(NumeralV) -> FormV| #[trigger]
            number::forms_by(*forms, g) ==> r@ == row_json(g, row@),
{
    let mut o: OrdMap<String, Json> = OrdMap::new();
    o.insert(text::owned("id"), Json::Str(row.record.id.to_text()));
    o.insert(text::owned("score"), json::single_to_json(row.score, forms));
    o.insert(text::owned("body"), json::value_to_json(&row.record.body, forms));
    proof {
        json::lemma_obj_view(o);
    }
    Json::Obj(o)
}

fn rows_doc<N: Fn(Numeral) -> Form>(rows: &Vec<ScoredRecord>, forms: &N) -> (r: Json)
    requires
        number::takes_numerals(*forms),
    ensures
        forall|g: spec_fn(NumeralV) -> FormV| #[trigger]
            number::forms_by(*forms, g) ==> r@ == rows_json(g, ordmap::views(rows@)),
{
    let ghost rv = ordmap::views(rows@);
    let mut out: Vec<Json> = Vec::new();
    let mut i: usize = 0;
    while i < rows.len()
        invariant
            number::takes_numerals(*forms),
            i <= rows.len(),
            rv == ordmap::views(rows@),
            out.len() == i,
            forall|g: spec_fn(NumeralV) -> FormV, k: int|
                #![trigger number::forms_by(*forms, g), out@[k]]
                number::forms_by(*forms, g) && 0 <= k < i ==> out@[k]@ == row_json(g, rv[k]),
        decreases rows.len() - i,
    {
        assert(rv[i as int] == rows@[i as int]@);
        out.push(row_doc(&rows[i], forms));
        i = i + 1;
    }
    proof {
        json::lemma_arr_view(out);
        assert forall|g: spec_fn(NumeralV) -> FormV| #[trigger]
            number::forms_by(*forms, g) implies JsonV::Arr(ordmap::views(out@)) == rows_json(
            g,
            rv,
        ) by {
            assert(ordmap::views(out@) =~= Seq::new(rv.len(), |i: int| row_json(g, rv[i])));
        }
    }
    Json::Arr(out)
}

fn result_doc<N: Fn(Numeral) -> Form>(res: &QueryResult, forms: &N) -> (r: Json)
    requires
        number::takes_numerals(*forms),
    ensures
        forall|g: spec_fn(NumeralV) -> FormV| #[trigger]
            number::forms_by(*forms, g) ==> r@ == result_json(g, res@),
{
    let kind = match &res.kind {
        QueryKind::Select(sel) => text::join2("SELECT ", sel.table.as_str()),
        QueryKind::Match(p) => {
            let start = p.start.to_text();
            text::join2("MATCH ", start.as_str())
        },
        QueryKind::Closure(p) => {
            let start = p.start.to_text();
            text::join2("CLOSURE ", start.as_str())
        },
    };
    let mut o: OrdMap<String, Json> = OrdMap::new();
    o.insert(text::owned("kind"), Json::Str(kind));
    o.insert(text::owned("rows"), rows_doc(&res.rows, forms));
    proof {
        json::lemma_obj_view(o);
    }
    Json::Obj(o)
}

fn results_doc<N: Fn(Numeral) -> Form>(results: &Vec<QueryResult>, forms: &N) -> (r: Json)
    requires
        number::takes_numerals(*forms),
    ensures
        forall|g: spec_fn(NumeralV) -> FormV| #[trigger]
            number::forms_by(*forms, g) ==> r@ == results_json(g, ordmap::views(results@)),
{
    let ghost rv = ordmap::views(results@);
    let mut out: Vec<Json> = Vec::new();
    let mut i: usize = 0;
    while i < results.len()
        invariant
            number::takes_numerals(*forms),
            i <= results.len(),
            rv == ordmap::views(results@),
            out.len() == i,
            forall|g: spec_fn(NumeralV) -> FormV, k: int|
                #![trigger number::forms_by(*forms, g), out@[k]]
                number::forms_by(*forms, g) && 0 <= k < i ==> out@[k]@ == result_json(g, rv[k]),
        decreases results.len() - i,
    {
        assert(rv[i as int] == results@[i as int]@);
        out.push(result_doc(&results[i], forms));
        i = i + 1;
    }
    proof {
        json::lemma_arr_view(out);
        assert forall|g: spec_fn(NumeralV) -> FormV| #[trigger]
            number::forms_by(*forms, g) implies JsonV::Arr(ordmap::views(out@)) == results_json(
            g,
            rv,
        ) by {
            assert(ordmap::views(out@) =~= Seq::new(rv.len(), |i: int| result_json(g, rv[i])));
        }
    }
    Json::Arr(out)
}

// ---------------------------------------------------------------------------------------------
// Tools
// ---------------------------------------------------------------------------------------------
/// The statements of a plan that are to be added to the log of `s`.
pub open spec fn logs(s: DbV, plan: Seq<StmtV>) -> Seq<StmtV> {
    if s.file is Some {
        database::changes(plan, plan.len() as int)
    } else {
        Seq::empty()
    }
}

/// A tool that runs one statement, made of its parameters, on `s` gives the database `t`, the reply
/// and the log. A statement that reads is answered with its rows, another with `OK`.
pub open spec fn tool_answers(
    g: spec_fn(NumeralV) -> FormV,
    sc: Scoring,
    s: DbV,
    stmt: Result<StmtV, Seq<char>>,
    t: DbV,
    reply: ReplyV,
    log: Seq<StmtV>,
) -> bool {
    match stmt {
        Err(m) => t == s && reply == ReplyV::Text("ERR "@ + m) && log == Seq::<StmtV>::empty(),
        Ok(st) => match engine::exec_fault(s.store, st) {
            Some(e) => t == s && reply == ReplyV::Text("ERR "@ + error::error_text(e)) && log
                == Seq::<StmtV>::empty(),
            None => {
                &&& t == DbV { store: engine::store_after(s.store, st), ..s }
                &&& reply == (match engine::query_result(sc, s.store, st) {
                    None => ReplyV::Text("OK"@),
                    Some(res) => ReplyV::Doc(rows_reply(g, res.rows)),
                })
                &&& log == logs(s, seq![st])
            },
        },
    }
}

/// Running a program on `s` gives the database `t`, the reply and the log: every result of the
/// program, or the first error.
pub open spec fn program_answers(
    g: spec_fn(NumeralV) -> FormV,
    sc: Scoring,
    s: DbV,
    program: Seq<char>,
    t: DbV,
    reply: ReplyV,
    log: Seq<StmtV>,
) -> bool {
    match parser::parse_text(program, g) {
        Err(e) => t == s && reply == ReplyV::Text("ERR "@ + parser::err_text(e)) && log == Seq::<
            StmtV,
        >::empty(),
        Ok(plan) => if engine::plan_runs(s.store, plan) {
            let n = plan.len() as int;
            &&& t == DbV { store: engine::store_at(s.store, plan, n), ..s }
            &&& reply == ReplyV::Doc(results_json(g, engine::results_at(sc, s.store, plan, n)))
            &&& log == logs(s, plan)
        } else {
            t == s && log == Seq::<StmtV>::empty() && exists|e: ErrorV| #[trigger]
                engine::plan_fails(s.store, plan, e) && reply == ReplyV::Text(
                    "ERR "@ + error::error_text(e),
                )
        },
    }
}

fn refusal(m: &str) -> (r: Called)
    ensures
        r.reply@ == ReplyV::Text("ERR "@ + m@),
        ordmap::views(r.log@) == Seq::<StmtV>::empty(),
{
    let log: Vec<Statement> = Vec::new();
    assert(ordmap::views(log@) =~= Seq::<StmtV>::empty());
    Called { reply: Reply::Text(text::join2("ERR ", m)), log }
}

proof fn lemma_single_plan(sc: Scoring, s: ir::StoreV, st: StmtV)
    ensures
        ({
            let plan = seq![st];
            &&& engine::plan_fault_at(s, plan, 0) == engine::exec_fault(s, st)
            &&& engine::store_at(s, plan, 1) == engine::store_after(s, st)
            &&& engine::results_at(sc, s, plan, 1) == (match engine::query_result(sc, s, st) {
                Some(res) => seq![res],
                None => Seq::empty(),
            })
        }),
{
    let plan = seq![st];
    reveal_with_fuel(engine::store_at, 2);
    reveal_with_fuel(engine::results_at, 2);
    assert(engine::store_at(s, plan, 0) == s);
    if let Some(res) = engine::query_result(sc, s, st) {
        assert(Seq::<ResV>::empty().push(res) =~= seq![res]);
    }
}

/// The service: a database, and the tools on it.
#[derive(Debug)]
pub struct NqlMcp {
    pub db: Database,
}

impl NqlMcp {
    /// A service on a fresh database in memory.
    pub fn new() -> (r: Self)
        ensures
            r.db@ == database::empty_db(),
    {
        NqlMcp { db: Database::default() }
    }

    /// Runs a made statement.
    fn run_statement<N: Fn(Numeral) -> Form, F: Fn(ScoreTask) -> u32>(
        &mut self,
        stmt: Result<Statement, String>,
        forms: &N,
        f: &F,
    ) -> (r: Called)
        requires
            number::takes_numerals(*forms),
            score::takes_tasks(*f),
        ensures
            forall|g: spec_fn(NumeralV) -> FormV, sc: Scoring|
                #![trigger number::forms_by(*forms, g), score::scores_by(*f, sc)]
                number::forms_by(*forms, g) && score::scores_by(*f, sc) ==> tool_answers(
                    g,
                    sc,
                    old(self).db@,
                    made(stmt),
                    final(self).db@,
                    r.reply@,
                    ordmap::views(r.log@),
                ),
    {
        let st = match stmt {
            Ok(st) => st,
            Err(m) => return refusal(m.as_str()),
        };
        let ghost sv = st@;
        let ghost s = self.db@.store;
        let mut plan: Vec<Statement> = Vec::new();
        plan.push(st);
        let ghost pv = ordmap::views(plan@);
        assert(pv =~= seq![sv]);
        proof {
            assert forall|sc: Scoring| #[trigger] score::scores_by(*f, sc) implies engine::results_at(
                sc,
                s,
                pv,
                1,
            ) == (match engine::query_result(sc, s, sv) {
                Some(res) => seq![res],
                None => Seq::empty(),
            }) by {
                lemma_single_plan(sc, s, sv);
            }
            lemma_single_plan(|t: score::TaskV| 0u32, s, sv);
        }
        match self.db.execute(&plan, f) {
            Err(e) => {
                let m = e.to_text();
                assert(engine::plan_fails(s, pv, e@));
                assert(engine::exec_fault(s, sv) == Some(e@));
                refusal(m.as_str())
            },
            Ok(results) => {
                assert(engine::plan_fault_at(s, pv, 0) is None);
                let log = self.db.to_log(&plan);
                assert(pv.len() == 1 && results@.len() == ordmap::views(results@).len());
                if results.len() == 0 {
                    proof {
                        assert forall|sc: Scoring| #[trigger] score::scores_by(*f, sc) implies
                            engine::query_result(sc, s, sv) is None by {
                            let rs = engine::results_at(sc, s, pv, 1);
                            assert(ordmap::views(results@) == rs);
                        }
                    }
                    return Called { reply: Reply::Text(text::owned("OK")), log };
                }
                let rows = rows_doc(&results[0].rows, forms);
                let mut o: OrdMap<String, Json> = OrdMap::new();
                o.insert(text::owned("rows"), rows);
                proof {
                    json::lemma_obj_view(o);
                    assert forall|sc: Scoring| #[trigger] score::scores_by(*f, sc) implies
                        engine::query_result(sc, s, sv) == Some(results@[0]@) by {
                        let rs = engine::results_at(sc, s, pv, 1);
                        assert(ordmap::views(results@) == rs);
                        assert(rs[0] == results@[0]@);
                    }
                }
                Called { reply: Reply::Doc(Json::Obj(o)), log }
            },
        }
    }

    /// Runs a program and replies with every result.
    pub fn execute_nql<N: Fn(Numeral) -> Form, F: Fn(ScoreTask) -> u32>(
        &mut self,
        p: &ExecuteNqlParams,
        forms: &N,
        f: &F,
    ) -> (r: Called)
        requires
            number::takes_numerals(*forms),
            score::takes_tasks(*f),
        ensures
            forall|g: spec_fn(NumeralV) -> FormV, sc: Scoring|
                #![trigger number::forms_by(*forms, g), score::scores_by(*f, sc)]
                number::forms_by(*forms, g) && score::scores_by(*f, sc) ==> program_answers(
                    g,
                    sc,
                    old(self).db@,
                    p.program@,
                    final(self).db@,
                    r.reply@,
                    ordmap::views(r.log@),
                ),
    {
        let plan = match parser::parse(p.program.as_str(), forms) {
            Ok(plan) => plan,
            Err(e) => {
                let m = e.to_text();
                return refusal(m.as_str());
            },
        };
        let ghost s = self.db@.store;
        let ghost pv = ordmap::views(plan@);
        match self.db.execute(&plan, f) {
            Err(e) => {
                let m = e.to_text();
                proof {
                    let i = choose|i: int|
                        0 <= i < pv.len() && #[trigger] engine::plan_fault_at(s, pv, i) == Some(e@);
                    assert(!engine::plan_runs(s, pv));
                }
                refusal(m.as_str())
            },
            Ok(results) => {
                let log = self.db.to_log(&plan);
                assert(pv.len() == plan@.len());
                let doc = results_doc(&results, forms);
                Called { reply: Reply::Doc(doc), log }
            },
        }
    }

    /// Declares a table.
    pub fn create_table<N: Fn(Numeral) -> Form, F: Fn(ScoreTask) -> u32>(
        &mut self,
        p: &CreateTableParams,
        forms: &N,
        f: &F,
    ) -> (r: Called)
        requires
            number::takes_numerals(*forms),
            score::takes_tasks(*f),
        ensures
            forall|g: spec_fn(NumeralV) -> FormV, sc: Scoring|
                #![trigger number::forms_by(*forms, g), score::scores_by(*f, sc)]
                number::forms_by(*forms, g) && score::scores_by(*f, sc) ==> tool_answers(
                    g,
                    sc,
                    old(self).db@,
                    Ok(StmtV::CreateTable { table: p.table@, vector_dim: p.vector_dim }),
                    final(self).db@,
                    r.reply@,
                    ordmap::views(r.log@),
                ),
    {
        let stmt = Statement::CreateTable {
            table: text::owned(p.table.as_str()),
            vector_dim: p.vector_dim,
        };
        self.run_statement(Ok(stmt), forms, f)
    }

    /// Inserts a record, or replaces it.
    pub fn insert_record<N: Fn(Numeral) -> Form, F: Fn(ScoreTask) -> u32>(
        &mut self,
        p: &InsertParams,
        forms: &N,
        f: &F,
    ) -> (r: Called)
        requires
            number::takes_numerals(*forms),
            score::takes_tasks(*f),
        ensures
            forall|g: spec_fn(NumeralV) -> FormV, sc: Scoring|
                #![trigger number::forms_by(*forms, g), score::scores_by(*f, sc)]
                number::forms_by(*forms, g) && score::scores_by(*f, sc) ==> tool_answers(
                    g,
                    sc,
                    old(self).db@,
                    insertion(g, *p),
                    final(self).db@,
                    r.reply@,
                    ordmap::views(r.log@),
                ),
    {
        let stmt = insert_statement(p, forms);
        self.run_statement(stmt, forms, f)
    }

    /// Adds an edge.
    pub fn relate<N: Fn(Numeral) -> Form, F: Fn(ScoreTask) -> u32>(
        &mut self,
        p: &RelateParams,
        forms: &N,
        f: &F,
    ) -> (r: Called)
        requires
            number::takes_numerals(*forms),
            score::takes_tasks(*f),
        ensures
            forall|g: spec_fn(NumeralV) -> FormV, sc: Scoring|
                #![trigger number::forms_by(*forms, g), score::scores_by(*f, sc)]
                number::forms_by(*forms, g) && score::scores_by(*f, sc) ==> tool_answers(
                    g,
                    sc,
                    old(self).db@,
                    relation(g, *p),
                    final(self).db@,
                    r.reply@,
                    ordmap::views(r.log@),
                ),
    {
        let stmt = relate_statement(p, forms);
        self.run_statement(stmt, forms, f)
    }

    /// Deletes a record and the edges at it.
    pub fn forget<N: Fn(Numeral) -> Form, F: Fn(ScoreTask) -> u32>(
        &mut self,
        p: &ForgetParams,
        forms: &N,
        f: &F,
    ) -> (r: Called)
        requires
            number::takes_numerals(*forms),
            score::takes_tasks(*f),
        ensures
            forall|g: spec_fn(NumeralV) -> FormV, sc: Scoring|
                #![trigger number::forms_by(*forms, g), score::scores_by(*f, sc)]
                number::forms_by(*forms, g) && score::scores_by(*f, sc) ==> tool_answers(
                    g,
                    sc,
                    old(self).db@,
                    deletion(*p),
                    final(self).db@,
                    r.reply@,
                    ordmap::views(r.log@),
                ),
    {
        let stmt = forget_statement(p);
        self.run_statement(stmt, forms, f)
    }

    /// Selects records of a table.
    pub fn select<N: Fn(Numeral) -> Form, F: Fn(ScoreTask) -> u32>(
        &mut self,
        p: &SelectParams,
        forms: &N,
        f: &F,
    ) -> (r: Called)
        requires
            number::takes_numerals(*forms),
            score::takes_tasks(*f),
        ensures
            forall|g: spec_fn(NumeralV) -> FormV, sc: Scoring|
                #![trigger number::forms_by(*forms, g), score::scores_by(*f, sc)]
                number::forms_by(*forms, g) && score::scores_by(*f, sc) ==> tool_answers(
                    g,
                    sc,
                    old(self).db@,
                    selection(g, *p),
                    final(self).db@,
                    r.reply@,
                    ordmap::views(r.log@),
                ),
    {
        let stmt = select_statement(p, forms);
        self.run_statement(stmt, forms, f)
    }

    /// Walks a path.
    pub fn match_path<N: Fn(Numeral) -> Form, F: Fn(ScoreTask) -> u32>(
        &mut self,
        p: &MatchParams,
        forms: &N,
        f: &F,
    ) -> (r: Called)
        requires
            number::takes_numerals(*forms),
            score::takes_tasks(*f),
        ensures
            forall|g: spec_fn(NumeralV) -> FormV, sc: Scoring|
                #![trigger number::forms_by(*forms, g), score::scores_by(*f, sc)]
                number::forms_by(*forms, g) && score::scores_by(*f, sc) ==> tool_answers(
                    g,
                    sc,
                    old(self).db@,
                    on_path(false, walk_path(g, *p)),
                    final(self).db@,
                    r.reply@,
                    ordmap::views(r.log@),
                ),
    {
        let stmt = walk_statement(p, false, forms);
        self.run_statement(stmt, forms, f)
    }

    /// Collects what a path reaches.
    pub fn closure<N: Fn(Numeral) -> Form, F: Fn(ScoreTask) -> u32>(
        &mut self,
        p: &MatchParams,
        forms: &N,
        f: &F,
    ) -> (r: Called)
        requires
            number::takes_numerals(*forms),
            score::takes_tasks(*f),
        ensures
            forall|g: spec_fn(NumeralV) -> FormV, sc: Scoring|
                #![trigger number::forms_by(*forms, g), score::scores_by(*f, sc)]
                number::forms_by(*forms, g) && score::scores_by(*f, sc) ==> tool_answers(
                    g,
                    sc,
                    old(self).db@,
                    on_path(true, walk_path(g, *p)),
                    final(self).db@,
                    r.reply@,
                    ordmap::views(r.log@),
                ),
    {
        let stmt = walk_statement(p, true, forms);
        self.run_statement(stmt, forms, f)
    }
}

impl Default for NqlMcp {
    /// A service on a fresh database in memory.
    fn default() -> (r: Self)
        ensures
            r.db@ == database::empty_db(),
    {
        NqlMcp::new()
    }
}

// ---------------------------------------------------------------------------------------------
// Laws
// ---------------------------------------------------------------------------------------------
/// A call that is answered with an error changes nothing and logs nothing.
pub proof fn law_refused_call_changes_nothing(
    g: spec_fn(NumeralV) -> FormV,
    sc: Scoring,
    s: DbV,
    stmt: Result<StmtV, Seq<char>>,
    t: DbV,
    m: Seq<char>,
    log: Seq<StmtV>,
)
    requires
        tool_answers(g, sc, s, stmt, t, ReplyV::Text("ERR "@ + m), log),
    ensures
        t == s,
        log == Seq::<StmtV>::empty(),
{
    reveal_strlit("ERR ");
    reveal_strlit("OK");
    assert(("ERR "@ + m)[0] == 'E');
}

/// A record that the tool inserted is in the store, as it was described.
pub proof fn law_inserted_record_is_stored(
    g: spec_fn(NumeralV) -> FormV,
    sc: Scoring,
    s: DbV,
    p: InsertParams,
    t: DbV,
    log: Seq<StmtV>,
)
    requires
        ir::store_wf(s.store),
        tool_answers(g, sc, s, insertion(g, p), t, ReplyV::Text("OK"@), log),
    ensures
        ({
            let id = rid_of(p.id@);
            &&& id is Ok
            &&& ordmap::lookup::<RecordId, RecV>(t.store.records, id->Ok_0) == Some(
                insertion(g, p)->Ok_0->Insert_0,
            )
        }),
{
    reveal_strlit("ERR ");
    reveal_strlit("OK");
    match insertion(g, p) {
        Ok(st) => {
            let rec = st->Insert_0;
            match engine::exec_fault(s.store, st) {
                None => {
                    ordmap::lemma_put_lookup_same::<RecordId, RecV>(s.store.records, rec.id, rec);
                },
                Some(e) => {
                    assert(("ERR "@ + error::error_text(e))[0] == 'E');
                },
            }
        },
        Err(m) => {
            assert(("ERR "@ + m)[0] == 'E');
        },
    }
}

// ---------------------------------------------------------------------------------------------
// Laws: what the tools make of their parameters
// ---------------------------------------------------------------------------------------------
/// The selection that a call asks for: of its table, with its limit; each of the six order words, in
/// any case, names the order of its own name, and any other word is refused; a field and a value make a
/// condition, one without the other none; a query vector makes a nearest-neighbour clause of its
/// numbers, for 10 neighbours where the call says nothing, and for at least 1.
pub proof fn law_select_tool(g: spec_fn(NumeralV) -> FormV, p: SelectParams)
    ensures
        selection(g, p) matches Ok(stmt) ==> {
            let sel = stmt->Select_0;
            &&& stmt is Select
            &&& sel.table == p.table@
            &&& sel.limit == p.limit
            &&& sel.as_of is None
            &&& p.order_by is None ==> sel.order is None
            &&& p.order_by matches Some(o) ==> {
                &&& text::lower(o@) == "similarity"@ || text::lower(o@) == "salience"@ || text::lower(
                    o@,
                ) == "score"@ || text::lower(o@) == "recency"@ || text::lower(o@) == "votes"@
                    || text::lower(o@) == "feedback"@
                &&& text::lower(o@) == "similarity"@ ==> sel.order == Some(Order::Similarity)
                &&& text::lower(o@) == "salience"@ ==> sel.order == Some(Order::Salience)
                &&& text::lower(o@) == "score"@ ==> sel.order == Some(Order::Score)
                &&& text::lower(o@) == "recency"@ ==> sel.order == Some(Order::Recency)
                &&& text::lower(o@) == "votes"@ ==> sel.order == Some(Order::Votes)
                &&& text::lower(o@) == "feedback"@ ==> sel.order == Some(Order::Feedback)
            }
            &&& p.query is None ==> sel.knn is None
            &&& p.query matches Some(j) ==> {
                &&& sel.knn is Some
                &&& j@ is Arr && sel.knn->0.query.len() == j@->Arr_0.len()
                &&& forall|i: int|
                    0 <= i < j@->Arr_0.len() ==> #[trigger] sel.knn->0.query[i] == (
                    match j@->Arr_0[i] {
                        JsonV::Int(n) => g(NumeralV::Wide(n)).single,
                        JsonV::Float(x) => g(NumeralV::Double(x)).single,
                        _ => 0u32,
                    })
                &&& p.k is None ==> sel.knn->0.k == 10
                &&& p.k == Some(0usize) ==> sel.knn->0.k == 1
                &&& p.k matches Some(k) ==> k > 0 ==> sel.knn->0.k == k
            }
            &&& p.field is None || p.value is None ==> sel.filter is None
            &&& p.field is Some && p.value is Some ==> sel.filter == Some(
                FilV::FieldEquals { field: p.field->0@, value: json::json_value(g, p.value->0@) },
            )
        },
        p.query is None && p.order_by is None ==> selection(g, p) is Ok,
{
    lemma_order_words_differ();
}

/// No two of the order words are the same.
proof fn lemma_order_words_differ()
    ensures
        "salience"@ != "similarity"@,
        "score"@ != "similarity"@,
        "score"@ != "salience"@,
        "recency"@ != "similarity"@,
        "recency"@ != "salience"@,
        "recency"@ != "score"@,
        "votes"@ != "similarity"@,
        "votes"@ != "salience"@,
        "votes"@ != "score"@,
        "votes"@ != "recency"@,
        "feedback"@ != "similarity"@,
        "feedback"@ != "salience"@,
        "feedback"@ != "score"@,
        "feedback"@ != "recency"@,
        "feedback"@ != "votes"@,
{
    reveal_strlit("similarity");
    reveal_strlit("salience");
    reveal_strlit("score");
    reveal_strlit("recency");
    reveal_strlit("votes");
    reveal_strlit("feedback");
    assert("similarity"@.len() == 10);
    assert("salience"@[1] == 'a' && "salience"@[0] == 's');
    assert("score"@[1] == 'c' && "score"@[0] == 's');
    assert("recency"@[0] == 'r');
    assert("votes"@[0] == 'v');
    assert("feedback"@[0] == 'f');
}

/// The edge that a call asks for: from and to the records that its texts name, under its name without
/// the colons in front, with its weight and its properties.
pub proof fn law_relate_tool(g: spec_fn(NumeralV) -> FormV, p: RelateParams)
    ensures
        relation(g, p) is Ok <==> ir::parse_rid(p.from@) is Some && ir::parse_rid(p.to@) is Some && (
        p.props is None || p.props->0@ is Obj),
        relation(g, p) matches Ok(stmt) ==> {
            let e = stmt->Relate_0;
            &&& stmt is Relate
            &&& Some(e.from) == ir::parse_rid(p.from@)
            &&& Some(e.to) == ir::parse_rid(p.to@)
            &&& e.weight == p.weight
            &&& e.created_at == 0
            &&& e.name == text::without_leading(p.name@, ':')
            &&& p.props is None ==> e.props.len() == 0
            &&& p.props matches Some(j) ==> Some(e.props) == json::json_body(g, j@)
        },
{
}

/// The record that a call inserts: under the id that its text names, with its document, and with its
/// embedding where it has one.
pub proof fn law_insert_tool(g: spec_fn(NumeralV) -> FormV, p: InsertParams)
    ensures
        insertion(g, p) is Ok <==> ir::parse_rid(p.id@) is Some && p.body@ is Obj && (p.embedding is None
            || embedding_of(g, p.embedding->0@) is Ok),
        insertion(g, p) matches Ok(stmt) ==> {
            let rec = stmt->Insert_0;
            &&& stmt is Insert
            &&& Some(rec.id) == ir::parse_rid(p.id@)
            &&& Some(rec.body) == json::json_body(g, p.body@)
            &&& rec.created_at == 0
            &&& p.embedding is None ==> rec.embedding is None
            &&& p.embedding matches Some(j) ==> rec.embedding is Some && embedding_of(g, j@) == Ok::<
                Seq<u32>,
                Seq<char>,
            >(rec.embedding->0)
        },
{
}

/// An embedding is an array of numbers, and stands for their singles, in their order.
pub proof fn law_embedding_holds_the_numbers(g: spec_fn(NumeralV) -> FormV, j: JsonV)
    ensures
        embedding_of(g, j) is Ok <==> j is Arr && forall|i: int|
            0 <= i < j->Arr_0.len() ==> (#[trigger] j->Arr_0[i]) is Int || j->Arr_0[i] is Float,
        embedding_of(g, j) matches Ok(v) ==> v.len() == j->Arr_0.len() && forall|i: int|
            0 <= i < v.len() ==> #[trigger] v[i] == (match j->Arr_0[i] {
                JsonV::Int(n) => g(NumeralV::Wide(n)).single,
                JsonV::Float(x) => g(NumeralV::Double(x)).single,
                _ => 0u32,
            }),
{
}

/// A call to walk makes a `CLOSURE`, or a `MATCH`, as it is asked, from the record that its text names.
/// A step that says `out` goes along the edges, one that says `in` against them, along the edges of its
/// name, and under its condition where it has one.
pub proof fn law_walk_tool(g: spec_fn(NumeralV) -> FormV, p: MatchParams, closure: bool, i: int)
    ensures
        on_path(closure, walk_path(g, p)) matches Ok(stmt) ==> {
            let path = if closure {
                stmt->Closure_0
            } else {
                stmt->Match_0
            };
            &&& closure ==> stmt is Closure
            &&& !closure ==> stmt is Match
            &&& Some(path.start) == ir::parse_rid(p.start@)
            &&& p.steps@ is Arr && path.steps.len() == p.steps@->Arr_0.len() > 0
            &&& 0 <= i < path.steps.len() ==> {
                let s = p.steps@->Arr_0[i];
                let step = path.steps[i];
                let d = json::member(s, "direction"@);
                &&& d == Some(JsonV::Str("out"@)) || d == Some(JsonV::Str("in"@))
                &&& d == Some(JsonV::Str("out"@)) ==> step.direction == MatchDirection::Out
                &&& d == Some(JsonV::Str("in"@)) ==> step.direction == MatchDirection::In
                &&& json::member(s, "name"@) matches Some(JsonV::Str(name)) && step.name
                    == text::without_leading(name, ':')
                &&& json::member(s, "where"@) is None ==> step.edge_props is None
                &&& json::member(s, "where"@) matches Some(w) ==> json::member(
                    w,
                    "field"@,
                ) matches Some(JsonV::Str(field)) && json::member(w, "value"@) matches Some(v)
                    && step.edge_props == Some(
                    FilV::FieldEquals { field, value: json::json_value(g, v) },
                )
            }
        },
{
    reveal_strlit("out");
    reveal_strlit("in");
    assert("out"@.len() == 3 && "in"@.len() == 2);
    if let JsonV::Arr(a) = p.steps@ {
        lemma_first_steps(g, a, a.len() as int);
    }
}

proof fn lemma_first_steps(g: spec_fn(NumeralV) -> FormV, a: Seq<JsonV>, n: int)
    requires
        0 <= n <= a.len(),
    ensures
        first_steps(g, a, n) matches Ok(steps) ==> steps.len() == n && forall|i: int|
            0 <= i < n ==> step_of(g, a[i]) == Ok::<StepV, Seq<char>>(#[trigger] steps[i]),
    decreases n,
{
    if n > 0 {
        lemma_first_steps(g, a, n - 1);
    }
}

/// The reply of a tool that reads holds, under `rows`, one object for each row, in their order: the id
/// in writing under `id`, the score under `score`, the document under `body`.
pub proof fn law_rows_reply(g: spec_fn(NumeralV) -> FormV, rows: Seq<RowV>, i: int)
    requires
        0 <= i < rows.len(),
    ensures
        rows_reply(g, rows) is Obj,
        json::member(rows_reply(g, rows), "rows"@) matches Some(JsonV::Arr(a)) && a.len()
            == rows.len() && json::member(a[i], "id"@) == Some(
            JsonV::Str(ir::rid_text(rows[i].record.id)),
        ) && json::member(a[i], "score"@) == Some(json::single_json(g, rows[i].score))
            && json::member(a[i], "body"@) == Some(
            JsonV::Obj(json::body_json(g, rows[i].record.body)),
        ),
{
    reveal_strlit("id");
    reveal_strlit("score");
    reveal_strlit("body");
    assert("id"@.len() == 2 && "score"@.len() == 5 && "body"@.len() == 4);
    let empty = Seq::<(Seq<char>, JsonV)>::empty();
    let all = rows_json(g, rows);
    ordmap::lemma_put_lookup_same::<String, JsonV>(empty, "rows"@, all);
    let x = JsonV::Str(ir::rid_text(rows[i].record.id));
    let y = json::single_json(g, rows[i].score);
    let z = JsonV::Obj(json::body_json(g, rows[i].record.body));
    let one = with_member(empty, "id"@, x);
    let two = with_member(one, "score"@, y);
    ordmap::lemma_put_ascending::<String, JsonV>(empty, "id"@, x);
    ordmap::lemma_put_ascending::<String, JsonV>(one, "score"@, y);
    ordmap::lemma_put_lookup_same::<String, JsonV>(empty, "id"@, x);
    ordmap::lemma_put_lookup_same::<String, JsonV>(one, "score"@, y);
    ordmap::lemma_put_lookup_same::<String, JsonV>(two, "body"@, z);
    ordmap::lemma_put_lookup_other::<String, JsonV>(one, "score"@, y, "id"@);
    ordmap::lemma_put_lookup_other::<String, JsonV>(two, "body"@, z, "id"@);
    ordmap::lemma_put_lookup_other::<String, JsonV>(two, "body"@, z, "score"@);
}

} // verus!
