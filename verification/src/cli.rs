//! The interactive session: programs in, text out.
use vstd::prelude::*;

use crate::database;
use crate::database::Database;
#[allow(unused_imports)]
use crate::database::DbV;
use crate::engine;
use crate::engine::QueryResult;
#[allow(unused_imports)]
use crate::engine::ResV;
use crate::error::Error;
use crate::ir;
use crate::ir::{Record, RecordId, RelationEdge, Statement, Store};
#[allow(unused_imports)]
use crate::ir::{EdgeV, RecV, RidV, StmtV, StoreV};
use crate::number;
use crate::number::{Form, Numeral};
#[allow(unused_imports)]
use crate::number::{FormV, NumeralV};
use crate::ordmap;
use crate::parser;
#[allow(unused_imports)]
use crate::parser::ErrV;
use crate::render;
use crate::render::Shown;
#[allow(unused_imports)]
use crate::render::Showing;
use crate::score;
use crate::score::ScoreTask;
#[allow(unused_imports)]
use crate::score::Scoring;
use crate::text;

verus! {

// ---------------------------------------------------------------------------------------------
// Results
// ---------------------------------------------------------------------------------------------
/// The lines of the first `n` rows, each indented and ended.
pub open spec fn row_lines(sh: Showing, res: ResV, n: int) -> Seq<char>
    decreases n,
{
    if n <= 0 {
        Seq::empty()
    } else {
        row_lines(sh, res, n - 1) + "  "@ + render::row_text(sh, "  "@, res.rows[n - 1]) + "\n"@
    }
}

/// One result in writing: a line that says what it is of and how many rows it has, and a line for
/// each row.
pub open spec fn result_text(sh: Showing, res: ResV) -> Seq<char> {
    render::label_text(res.kind) + " ("@ + text::dec_text(res.rows.len()) + ")\n"@ + row_lines(
        sh,
        res,
        res.rows.len() as int,
    )
}

/// The first `n` results in writing.
pub open spec fn results_text(sh: Showing, results: Seq<ResV>, n: int) -> Seq<char>
    decreases n,
{
    if n <= 0 {
        Seq::empty()
    } else {
        results_text(sh, results, n - 1) + result_text(sh, results[n - 1])
    }
}

/// One result in writing.
pub fn print_result<S: Fn(Shown) -> String>(res: &QueryResult, show: &S) -> (r: String)
    requires
        render::takes_shown(*show),
    ensures
        forall|sh: Showing| #[trigger] render::shows_by(*show, sh) ==> r@ == result_text(sh, res@),
{
    let ghost rv = res@;
    let label = render::format_label(&res.kind);
    let count = text::usize_text(res.rows.len());
    let mut out = text::join4(label.as_str(), " (", count.as_str(), ")\n");
    let ghost head = out@;
    let mut i: usize = 0;
    assert(forall|sh: Showing| head + #[trigger] row_lines(sh, rv, 0) =~= head);
    while i < res.rows.len()
        invariant
            render::takes_shown(*show),
            i <= res.rows.len(),
            rv == res@,
            forall|sh: Showing| #[trigger]
                render::shows_by(*show, sh) ==> out@ == head + row_lines(sh, rv, i as int),
        decreases res.rows.len() - i,
    {
        assert(rv.rows[i as int] == res.rows@[i as int]@);
        let ghost before = out@;
        let row = render::format_row(&res.rows[i], "  ", show);
        out.append("  ");
        out.append(row.as_str());
        out.append("\n");
        proof {
            assert forall|sh: Showing| #[trigger] render::shows_by(*show, sh) implies out@ == head
                + row_lines(sh, rv, i + 1) by {
                assert(before == head + row_lines(sh, rv, i as int));
                assert(out@ =~= head + row_lines(sh, rv, i + 1));
            }
        }
        i = i + 1;
    }
    out
}

// ---------------------------------------------------------------------------------------------
// The store in writing
// ---------------------------------------------------------------------------------------------
/// The lines of the first `n` declared dimensions.
pub open spec fn table_lines(dims: Seq<(Seq<char>, usize)>, n: int) -> Seq<char>
    decreases n,
{
    if n <= 0 {
        Seq::empty()
    } else {
        table_lines(dims, n - 1) + "  "@ + dims[n - 1].0 + "  VECTOR<f32,"@ + text::dec_text(
            dims[n - 1].1 as nat,
        ) + ">\n"@
    }
}

/// A record as a line: its id, its fields, and the start of its embedding.
pub open spec fn record_line(sh: Showing, rec: RecV) -> Seq<char> {
    "  "@ + ir::rid_text(rec.id) + "  "@ + render::fields_text(sh, rec.body) + (match rec.embedding {
        Some(v) => " emb=["@ + render::vector_text(sh, v) + "]"@,
        None => ""@,
    }) + "\n"@
}

/// The lines of the first `n` records.
pub open spec fn record_lines(sh: Showing, recs: Seq<(RidV, RecV)>, n: int) -> Seq<char>
    decreases n,
{
    if n <= 0 {
        Seq::empty()
    } else {
        record_lines(sh, recs, n - 1) + record_line(sh, recs[n - 1].1)
    }
}

/// An edge as a line: where it starts, its name, where it ends, and its weight.
pub open spec fn edge_line(sh: Showing, e: EdgeV) -> Seq<char> {
    "  "@ + ir::rid_text(e.from) + " -[:"@ + e.name + "]-> "@ + ir::rid_text(e.to) + "  w="@ + (
    match e.weight {
        Some(w) => "Some("@ + sh(Shown::Pointed(w)) + ")"@,
        None => "None"@,
    }) + "\n"@
}

/// The lines of the first `n` edges.
pub open spec fn edge_lines(sh: Showing, edges: Seq<EdgeV>, n: int) -> Seq<char>
    decreases n,
{
    if n <= 0 {
        Seq::empty()
    } else {
        edge_lines(sh, edges, n - 1) + edge_line(sh, edges[n - 1])
    }
}

/// The whole store in writing: declared dimensions, records and edges.
pub open spec fn store_text(sh: Showing, s: StoreV) -> Seq<char> {
    "tables:\n"@ + table_lines(s.vector_dims, s.vector_dims.len() as int) + "records:\n"@
        + record_lines(sh, s.records, s.records.len() as int) + "edges:\n"@ + edge_lines(
        sh,
        s.edges,
        s.edges.len() as int,
    )
}

fn print_tables(store: &Store) -> (r: String)
    ensures
        r@ == table_lines(store@.vector_dims, store@.vector_dims.len() as int),
{
    let ghost dims = store@.vector_dims;
    let entries = &store.vector_dims.entries;
    let mut out = String::new();
    let mut i: usize = 0;
    while i < entries.len()
        invariant
            i <= entries.len(),
            entries.len() == dims.len(),
            forall|j: int|
                0 <= j < dims.len() ==> (#[trigger] dims[j]) == (entries@[j].0@, entries@[j].1),
            out@ == table_lines(dims, i as int),
        decreases entries.len() - i,
    {
        assert(dims[i as int] == (entries@[i as int].0@, entries@[i as int].1));
        let dim = text::usize_text(entries[i].1);
        out.append("  ");
        out.append(entries[i].0.as_str());
        out.append("  VECTOR<f32,");
        out.append(dim.as_str());
        out.append(">\n");
        i = i + 1;
    }
    out
}

fn print_record<S: Fn(Shown) -> String>(rec: &Record, show: &S) -> (r: String)
    requires
        render::takes_shown(*show),
    ensures
        forall|sh: Showing| #[trigger] render::shows_by(*show, sh) ==> r@ == record_line(sh, rec@),
{
    let id = rec.id.to_text();
    let fields = render::format_fields(&rec.body, show);
    let mut out = text::join4("  ", id.as_str(), "  ", fields.as_str());
    let emb = match &rec.embedding {
        Some(v) => {
            let list = render::slice4(v, show);
            text::join3(" emb=[", list.as_str(), "]")
        },
        None => text::owned(""),
    };
    out.append(emb.as_str());
    out.append("\n");
    out
}

fn print_edge<S: Fn(Shown) -> String>(e: &RelationEdge, show: &S) -> (r: String)
    requires
        render::takes_shown(*show),
    ensures
        forall|sh: Showing| #[trigger] render::shows_by(*show, sh) ==> r@ == edge_line(sh, e@),
{
    let from = e.from.to_text();
    let to = e.to.to_text();
    let weight = match &e.weight {
        Some(w) => {
            let w = show(Shown::Pointed(*w));
            text::join3("Some(", w.as_str(), ")")
        },
        None => text::owned("None"),
    };
    let mut out = text::join4("  ", from.as_str(), " -[:", e.name.as_str());
    out.append("]-> ");
    out.append(to.as_str());
    out.append("  w=");
    out.append(weight.as_str());
    out.append("\n");
    out
}

fn print_records<S: Fn(Shown) -> String>(store: &Store, show: &S) -> (r: String)
    requires
        render::takes_shown(*show),
    ensures
        forall|sh: Showing| #[trigger]
            render::shows_by(*show, sh) ==> r@ == record_lines(
                sh,
                store@.records,
                store@.records.len() as int,
            ),
{
    let ghost recs = store@.records;
    let entries = &store.records.entries;
    let mut out = String::new();
    let mut i: usize = 0;
    while i < entries.len()
        invariant
            render::takes_shown(*show),
            i <= entries.len(),
            entries.len() == recs.len(),
            forall|j: int|
                0 <= j < recs.len() ==> (#[trigger] recs[j]) == (entries@[j].0@, entries@[j].1@),
            forall|sh: Showing| #[trigger]
                render::shows_by(*show, sh) ==> out@ == record_lines(sh, recs, i as int),
        decreases entries.len() - i,
    {
        assert(recs[i as int] == (entries@[i as int].0@, entries@[i as int].1@));
        let line = print_record(&entries[i].1, show);
        out.append(line.as_str());
        i = i + 1;
    }
    out
}

fn print_edges<S: Fn(Shown) -> String>(store: &Store, show: &S) -> (r: String)
    requires
        render::takes_shown(*show),
    ensures
        forall|sh: Showing| #[trigger]
            render::shows_by(*show, sh) ==> r@ == edge_lines(
                sh,
                store@.edges,
                store@.edges.len() as int,
            ),
{
    let ghost es = store@.edges;
    let mut out = String::new();
    let mut i: usize = 0;
    while i < store.edges.len()
        invariant
            render::takes_shown(*show),
            i <= store.edges.len(),
            es == ordmap::views(store.edges@),
            forall|sh: Showing| #[trigger]
                render::shows_by(*show, sh) ==> out@ == edge_lines(sh, es, i as int),
        decreases store.edges.len() - i,
    {
        assert(es[i as int] == store.edges@[i as int]@);
        let line = print_edge(&store.edges[i], show);
        out.append(line.as_str());
        i = i + 1;
    }
    out
}

// ---------------------------------------------------------------------------------------------
// The session
// ---------------------------------------------------------------------------------------------
/// A session on a database.
#[derive(Debug)]
pub struct Session {
    pub db: Database,
}

/// What running an input gave: the text to show, how many statements were executed, and which of
/// them are to be added to the log.
#[derive(Debug)]
pub struct Ran {
    pub output: String,
    pub count: usize,
    pub log: Vec<Statement>,
}

/// Running the plan on `s` gives the database `t`, the text `out`, the number `count` of statements,
/// and the statements `log` to log.
pub open spec fn runs(
    sc: Scoring,
    sh: Showing,
    s: DbV,
    plan: Seq<StmtV>,
    t: DbV,
    out: Seq<char>,
    log: Seq<StmtV>,
) -> bool {
    let results = engine::results_at(sc, s.store, plan, plan.len() as int);
    &&& engine::plan_runs(s.store, plan)
    &&& t == DbV { store: engine::store_at(s.store, plan, plan.len() as int), ..s }
    &&& out == results_text(sh, results, results.len() as int)
    &&& log == if s.file is Some {
        database::changes(plan, plan.len() as int)
    } else {
        Seq::empty()
    }
}

/// Running `input` on `s` gives the database `t` and the result `r`. Nothing but white space is
/// nothing to run; what cannot be parsed is reported and not run; what fails is an error.
pub open spec fn session_runs(
    g: spec_fn(NumeralV) -> FormV,
    sc: Scoring,
    sh: Showing,
    s: DbV,
    input: Seq<char>,
    t: DbV,
    r: Result<Ran, Error>,
) -> bool {
    let idle = |out: Seq<char>|
        r matches Ok(ran) && ran.output@ == out && ran.count == 0 && ran.log@.len() == 0 && t == s;
    if text::trimmed(input).len() == 0 {
        idle(Seq::empty())
    } else {
        match parser::parse_text(input, g) {
            Err(e) => idle("error: "@ + parser::err_text(e) + "\n"@),
            Ok(plan) => match r {
                Ok(ran) => ran.count == plan.len() && runs(
                    sc,
                    sh,
                    s,
                    plan,
                    t,
                    ran.output@,
                    ordmap::views(ran.log@),
                ),
                Err(e) => t == s && engine::plan_fails(s.store, plan, e@),
            },
        }
    }
}

impl Session {
    /// A fresh session, in memory.
    pub fn new() -> (r: Self)
        ensures
            r.db@ == database::empty_db(),
    {
        Session { db: Database::default() }
    }

    /// Runs an input, zero or more statements. `forms` gives the floating-point form of the numbers
    /// in it, `f` computes the scores, and `show` writes numbers.
    pub fn run<N: Fn(Numeral) -> Form, F: Fn(ScoreTask) -> u32, S: Fn(Shown) -> String>(
        &mut self,
        input: &str,
        forms: &N,
        f: &F,
        show: &S,
    ) -> (r: Result<Ran, Error>)
        requires
            number::takes_numerals(*forms),
            score::takes_tasks(*f),
            render::takes_shown(*show),
        ensures
            forall|g: spec_fn(NumeralV) -> FormV, sc: Scoring, sh: Showing|
                #![trigger number::forms_by(*forms, g), score::scores_by(*f, sc), render::shows_by(*show, sh)]
                number::forms_by(*forms, g) && score::scores_by(*f, sc) && render::shows_by(
                    *show,
                    sh,
                ) ==> session_runs(g, sc, sh, old(self).db@, input@, final(self).db@, r),
    {
        if text::trim(input).as_str().is_empty() {
            return Ok(Ran { output: String::new(), count: 0, log: Vec::new() });
        }
        let plan = match parser::parse(input, forms) {
            Ok(plan) => plan,
            Err(e) => {
                let m = e.to_text();
                let output = text::join3("error: ", m.as_str(), "\n");
                return Ok(Ran { output, count: 0, log: Vec::new() });
            },
        };
        let ghost stmts = ordmap::views(plan@);
        let results = match self.db.execute(&plan, f) {
            Ok(results) => results,
            Err(e) => return Err(e),
        };
        let log = self.db.to_log(&plan);
        let ghost rs = ordmap::views(results@);
        let mut output = String::new();
        let mut i: usize = 0;
        while i < results.len()
            invariant
                render::takes_shown(*show),
                i <= results.len(),
                rs == ordmap::views(results@),
                forall|sh: Showing| #[trigger]
                    render::shows_by(*show, sh) ==> output@ == results_text(sh, rs, i as int),
            decreases results.len() - i,
        {
            assert(rs[i as int] == results@[i as int]@);
            let one = print_result(&results[i], show);
            output.append(one.as_str());
            i = i + 1;
        }
        proof {
            assert(plan@.len() == stmts.len() && results@.len() == rs.len());
            assert forall|sc: Scoring, sh: Showing|
                #![trigger score::scores_by(*f, sc), render::shows_by(*show, sh)]
                score::scores_by(*f, sc) && render::shows_by(*show, sh) implies runs(
                sc,
                sh,
                old(self).db@,
                stmts,
                self.db@,
                output@,
                ordmap::views(log@),
            ) by {
                assert(rs == engine::results_at(
                    sc,
                    old(self).db@.store,
                    stmts,
                    stmts.len() as int,
                ));
            }
        }
        Ok(Ran { output, count: plan.len(), log })
    }

    /// The whole store in writing.
    pub fn dump_store<S: Fn(Shown) -> String>(&self, show: &S) -> (r: String)
        requires
            render::takes_shown(*show),
        ensures
            forall|sh: Showing| #[trigger]
                render::shows_by(*show, sh) ==> r@ == store_text(sh, self.db@.store),
    {
        let store = self.db.store();
        let tables = print_tables(store);
        let records = print_records(store, show);
        let edges = print_edges(store, show);
        let mut out = text::join4("tables:\n", tables.as_str(), "records:\n", records.as_str());
        out.append("edges:\n");
        out.append(edges.as_str());
        out
    }

    /// Starts over with an empty database, where the session is in memory; says whether it did. A
    /// persisted database is left as it is.
    pub fn clear(&mut self) -> (r: bool)
        ensures
            r == (old(self).db@.file is None),
            final(self).db@ == (if r {
                database::empty_db()
            } else {
                old(self).db@
            }),
    {
        if self.db.file().is_some() {
            return false;
        }
        self.db = Database::default();
        true
    }
}

/// A record id in writing.
pub fn display_id(rid: &RecordId) -> (r: String)
    ensures
        r@ == ir::rid_text(rid@),
{
    rid.to_text()
}

// ---------------------------------------------------------------------------------------------
// The prompt
// ---------------------------------------------------------------------------------------------
/// What a line at the prompt asks for.
#[derive(Debug, PartialEq, Eq)]
pub enum Command {
    /// Nothing: the line is blank.
    Skip,
    /// The help text.
    Help,
    /// To leave.
    Quit,
    /// A fresh database.
    Clear,
    /// To fold the log into the main file.
    Flush,
    /// The whole store in writing.
    Show,
    /// To run a program.
    Run(String),
}

/// What a line at the prompt asks for.
pub open spec fn asks(line: Seq<char>, c: Command) -> bool {
    let t = text::trimmed(line);
    if t.len() == 0 {
        c is Skip
    } else if t == ":help"@ {
        c is Help
    } else if t == ":quit"@ || t == ":exit"@ {
        c is Quit
    } else if t == ":clear"@ {
        c is Clear
    } else if t == ":flush"@ {
        c is Flush
    } else if t == ":store"@ {
        c is Show
    } else {
        c matches Command::Run(program) && program@ == t
    }
}

/// Reads a line at the prompt.
pub fn read_command(line: &str) -> (r: Command)
    ensures
        asks(line@, r),
{
    let t = text::trim(line);
    if t.as_str().is_empty() {
        Command::Skip
    } else if text::text_same(t.as_str(), ":help") {
        Command::Help
    } else if text::text_same(t.as_str(), ":quit") || text::text_same(t.as_str(), ":exit") {
        Command::Quit
    } else if text::text_same(t.as_str(), ":clear") {
        Command::Clear
    } else if text::text_same(t.as_str(), ":flush") {
        Command::Flush
    } else if text::text_same(t.as_str(), ":store") {
        Command::Show
    } else {
        Command::Run(t)
    }
}

/// What a line at the prompt asks for is decided by the line without the white space around it: one
/// word for each command, two to leave; nothing is skipped; anything else is a program, to be run as it
/// stands.
pub proof fn law_commands(line: Seq<char>, c: Command)
    requires
        asks(line, c),
    ensures
        c is Skip <==> text::trimmed(line).len() == 0,
        c is Help <==> text::trimmed(line) == ":help"@,
        c is Quit <==> text::trimmed(line) == ":quit"@ || text::trimmed(line) == ":exit"@,
        c is Clear <==> text::trimmed(line) == ":clear"@,
        c is Flush <==> text::trimmed(line) == ":flush"@,
        c is Show <==> text::trimmed(line) == ":store"@,
        c matches Command::Run(program) ==> program@ == text::trimmed(line),
{
    reveal_strlit(":help");
    reveal_strlit(":quit");
    reveal_strlit(":exit");
    reveal_strlit(":clear");
    reveal_strlit(":flush");
    reveal_strlit(":store");
    assert(":help"@.len() == 5 && ":help"@[1] == 'h');
    assert(":quit"@.len() == 5 && ":quit"@[1] == 'q');
    assert(":exit"@.len() == 5 && ":exit"@[1] == 'e');
    assert(":clear"@.len() == 6 && ":clear"@[1] == 'c');
    assert(":flush"@.len() == 6 && ":flush"@[1] == 'f');
    assert(":store"@.len() == 6 && ":store"@[1] == 's');
}

/// A result in writing: a line that says what it is of and how many rows it has, and then a line for each
/// row, indented by two blanks.
pub proof fn law_result_layout(sh: Showing, res: ResV)
    ensures
        res.rows.len() == 0 ==> result_text(sh, res) == render::label_text(res.kind) + " ("@
            + text::dec_text(0) + ")\n"@,
        res.rows.len() == 1 ==> result_text(sh, res) == render::label_text(res.kind) + " ("@
            + text::dec_text(1) + ")\n"@ + ("  "@ + render::row_text(sh, "  "@, res.rows[0]) + "\n"@),
{
    let none = Seq::<char>::empty();
    assert(row_lines(sh, res, 0) =~= none);
    let head = render::label_text(res.kind) + " ("@ + text::dec_text(res.rows.len()) + ")\n"@;
    if res.rows.len() == 0 {
        assert(result_text(sh, res) =~= head);
    }
    if res.rows.len() == 1 {
        let line = "  "@ + render::row_text(sh, "  "@, res.rows[0]) + "\n"@;
        assert(row_lines(sh, res, 1) =~= line);
    }
}

/// Results are written one behind the other, in their order.
pub proof fn law_results_in_order(sh: Showing, results: Seq<ResV>, n: int)
    requires
        0 < n <= results.len(),
    ensures
        results_text(sh, results, 0).len() == 0,
        results_text(sh, results, n) == results_text(sh, results, n - 1) + result_text(
            sh,
            results[n - 1],
        ),
{
}

} // verus!
