//! The line protocol: one program a line, one response a line.
//!
//! A response is a line for each result and then `OK`, or one line `ERR` with the message of the
//! first error, and then nothing has changed. One database lives across lines. Analysis knows only
//! the plan it is given, so the server puts the declarations of earlier lines in front of it.
use vstd::prelude::*;

use crate::analyzer;
use crate::analyzer::Analyzer;
#[allow(unused_imports)]
use crate::analyzer::AnErrV;
use crate::database;
use crate::database::Database;
#[allow(unused_imports)]
use crate::database::DbV;
use crate::engine;
use crate::engine::QueryResult;
#[allow(unused_imports)]
use crate::engine::ResV;
use crate::error;
#[allow(unused_imports)]
use crate::error::ErrorV;
use crate::ir::{Plan, Statement};
#[allow(unused_imports)]
use crate::ir::StmtV;
use crate::number;
use crate::number::{Form, Numeral};
#[allow(unused_imports)]
use crate::number::{FormV, NumeralV};
use crate::ordmap;
use crate::ordmap::{Dup, OrdMap};
use crate::parser;
#[allow(unused_imports)]
use crate::parser::ErrV;
use crate::render;
use crate::render::Shown;
#[allow(unused_imports)]
use crate::render::Showing;
use crate::score;
use crate::score::ScoreTask;
#[allow(unused_imports)]
use crate::score::Scoring;
use crate::text;

verus! {

// ---------------------------------------------------------------------------------------------
// Responses
// ---------------------------------------------------------------------------------------------
/// What is said of a result: what it is of, how many rows it has, and the rows.
pub open spec fn result_text(sh: Showing, res: ResV) -> Seq<char> {
    let head = render::label_text(res.kind) + " ("@ + text::dec_text(res.rows.len()) + " rows)"@;
    if res.rows.len() == 0 {
        head
    } else {
        head + ": "@ + text::joined(render::row_texts(sh, " "@, res.rows), "; "@)
    }
}

/// One result as a line.
pub open spec fn result_line(sh: Showing, res: ResV) -> Seq<char> {
    text::one_line(result_text(sh, res))
}

/// A refusal as a line.
pub open spec fn refusal(message: Seq<char>) -> Seq<char> {
    "ERR "@ + text::one_line(message)
}

/// A refusal as a line.
fn refuse(message: &str) -> (r: String)
    ensures
        r@ == refusal(message@),
{
    let m = text::in_one_line(message);
    text::join2("ERR ", m.as_str())
}

/// The lines of the first `n` results, each ended.
pub open spec fn result_lines(sh: Showing, results: Seq<ResV>, n: int) -> Seq<char>
    decreases n,
{
    if n <= 0 {
        Seq::empty()
    } else {
        result_lines(sh, results, n - 1) + result_line(sh, results[n - 1]) + "\n"@
    }
}

/// One result as a line.
pub fn format_result<S: Fn(Shown) -> String>(res: &QueryResult, show: &S) -> (r: String)
    requires
        render::takes_shown(*show),
    ensures
        forall|sh: Showing| #[trigger]
            render::shows_by(*show, sh) ==> r@ == result_line(sh, res@),
{
    let label = render::format_label(&res.kind);
    let count = text::usize_text(res.rows.len());
    let mut out = text::join4(label.as_str(), " (", count.as_str(), " rows)");
    if res.rows.len() == 0 {
        return text::in_one_line(out.as_str());
    }
    let rows = render::format_rows(&res.rows, " ", show);
    let list = text::join(&rows, "; ");
    assert(Seq::new(rows@.len(), |i: int| rows@[i]@) =~= ordmap::views(rows@));
    out.append(": ");
    out.append(list.as_str());
    text::in_one_line(out.as_str())
}

fn format_results<S: Fn(Shown) -> String>(results: &Vec<QueryResult>, show: &S) -> (r: String)
    requires
        render::takes_shown(*show),
    ensures
        forall|sh: Showing| #[trigger]
            render::shows_by(*show, sh) ==> r@ == result_lines(
                sh,
                ordmap::views(results@),
                results@.len() as int,
            ),
{
    let ghost rs = ordmap::views(results@);
    let mut out = String::new();
    let mut i: usize = 0;
    while i < results.len()
        invariant
            render::takes_shown(*show),
            i <= results.len(),
            rs == ordmap::views(results@),
            forall|sh: Showing| #[trigger]
                render::shows_by(*show, sh) ==> out@ == result_lines(sh, rs, i as int),
        decreases results.len() - i,
    {
        assert(rs[i as int] == results@[i as int]@);
        let line = format_result(&results[i], show);
        out.append(line.as_str());
        out.append("\n");
        i = i + 1;
    }
    out
}

// ---------------------------------------------------------------------------------------------
// Declarations of earlier lines
// ---------------------------------------------------------------------------------------------
/// The tables declared so far, each with its dimension if it has one.
pub type Declared = OrdMap<String, Option<usize>>;

/// The model of declarations.
pub type DeclaredV = Seq<(Seq<char>, Option<usize>)>;

/// The plan declares the table.
pub open spec fn redeclares(plan: Seq<StmtV>, table: Seq<char>) -> bool {
    exists|i: int|
        0 <= i < plan.len() && #[trigger] plan[i] is CreateTable && plan[i]->CreateTable_table
            == table
}

/// Declarations for the first `n` tables that the plan does not itself declare.
pub open spec fn reminders(declared: DeclaredV, plan: Seq<StmtV>, n: int) -> Seq<StmtV>
    decreases n,
{
    if n <= 0 {
        Seq::empty()
    } else {
        let (table, vector_dim) = declared[n - 1];
        if redeclares(plan, table) {
            reminders(declared, plan, n - 1)
        } else {
            reminders(declared, plan, n - 1).push(StmtV::CreateTable { table, vector_dim })
        }
    }
}

/// The plan behind the declarations of earlier lines.
pub open spec fn reminded(declared: DeclaredV, plan: Seq<StmtV>) -> Seq<StmtV> {
    reminders(declared, plan, declared.len() as int) + plan
}

/// The declarations behind the first `n` statements of a plan.
pub open spec fn declared_after(declared: DeclaredV, plan: Seq<StmtV>, n: int) -> DeclaredV
    decreases n,
{
    if n <= 0 {
        declared
    } else {
        match plan[n - 1] {
            StmtV::CreateTable { table, vector_dim } => ordmap::put::<String, Option<usize>>(
                declared_after(declared, plan, n - 1),
                table,
                vector_dim,
            ),
            _ => declared_after(declared, plan, n - 1),
        }
    }
}

fn plan_redeclares(plan: &Plan, table: &String) -> (r: bool)
    ensures
        r == redeclares(ordmap::views(plan@), table@),
{
    let ghost stmts = ordmap::views(plan@);
    let mut i: usize = 0;
    while i < plan.len()
        invariant
            i <= plan.len(),
            stmts == ordmap::views(plan@),
            forall|j: int|
                0 <= j < i ==> !(#[trigger] stmts[j] is CreateTable
                    && stmts[j]->CreateTable_table == table@),
        decreases plan.len() - i,
    {
        assert(stmts[i as int] == plan@[i as int]@);
        if let Statement::CreateTable { table: t, .. } = &plan[i] {
            if text::text_same(t.as_str(), table.as_str()) {
                return true;
            }
        }
        i = i + 1;
    }
    false
}

fn remind(declared: &Declared, plan: &Plan) -> (r: Plan)
    ensures
        ordmap::views(r@) == reminded(declared@, ordmap::views(plan@)),
{
    let ghost dv = declared@;
    let ghost stmts = ordmap::views(plan@);
    let mut out: Plan = Vec::new();
    let mut i: usize = 0;
    assert(ordmap::views(out@) =~= Seq::<StmtV>::empty());
    while i < declared.entries.len()
        invariant
            i <= declared.entries.len(),
            dv == declared@,
            stmts == ordmap::views(plan@),
            ordmap::views(out@) == reminders(dv, stmts, i as int),
        decreases declared.entries.len() - i,
    {
        let entry = &declared.entries[i];
        assert(dv[i as int] == (entry.0@, entry.1@));
        if !plan_redeclares(plan, &entry.0) {
            let ghost before = ordmap::views(out@);
            let stmt = Statement::CreateTable {
                table: text::owned(entry.0.as_str()),
                vector_dim: entry.1,
            };
            let ghost sv = stmt@;
            out.push(stmt);
            assert(ordmap::views(out@) =~= before.push(sv));
        }
        i = i + 1;
    }
    let ghost head = ordmap::views(out@);
    let mut i: usize = 0;
    assert(head + stmts.take(0) =~= head);
    while i < plan.len()
        invariant
            i <= plan.len(),
            stmts == ordmap::views(plan@),
            ordmap::views(out@) == head + stmts.take(i as int),
        decreases plan.len() - i,
    {
        assert(stmts[i as int] == plan@[i as int]@);
        let ghost before = ordmap::views(out@);
        out.push(plan[i].dup());
        assert(ordmap::views(out@) =~= before.push(stmts[i as int]));
        assert(stmts.take(i + 1) =~= stmts.take(i as int).push(stmts[i as int]));
        assert(before.push(stmts[i as int]) =~= head + stmts.take(i + 1));
        i = i + 1;
    }
    assert(stmts.take(i as int) =~= stmts);
    out
}

fn note_declarations(declared: &mut Declared, plan: &Plan)
    ensures
        final(declared)@ == declared_after(
            old(declared)@,
            ordmap::views(plan@),
            plan@.len() as int,
        ),
{
    let ghost dv = declared@;
    let ghost stmts = ordmap::views(plan@);
    let mut i: usize = 0;
    while i < plan.len()
        invariant
            i <= plan.len(),
            stmts == ordmap::views(plan@),
            declared@ == declared_after(dv, stmts, i as int),
        decreases plan.len() - i,
    {
        assert(stmts[i as int] == plan@[i as int]@);
        if let Statement::CreateTable { table, vector_dim } = &plan[i] {
            declared.insert(text::owned(table.as_str()), *vector_dim);
        }
        i = i + 1;
    }
}

fn tail_of(plan: Plan, from: usize) -> (r: Plan)
    requires
        from <= plan.len(),
    ensures
        ordmap::views(r@) == ordmap::views(plan@).skip(from as int),
{
    let ghost stmts = ordmap::views(plan@);
    let mut plan = plan;
    let tail = plan.split_off(from);
    assert(ordmap::views(tail@) =~= stmts.skip(from as int));
    tail
}

// ---------------------------------------------------------------------------------------------
// The server
// ---------------------------------------------------------------------------------------------
/// A session of the line protocol: the database, and the tables that its lines declared.
#[derive(Debug)]
pub struct Server {
    db: Database,
    declared: Declared,
}

#[verifier::ext_equal]
pub struct ServerV {
    pub db: DbV,
    pub declared: DeclaredV,
}

impl View for Server {
    type V = ServerV;

    closed spec fn view(&self) -> ServerV {
        ServerV { db: self.db@, declared: self.declared@ }
    }
}

/// The plan that is executed for a line: its statements, analyzed behind the earlier declarations.
pub open spec fn executed(declared: DeclaredV, plan: Seq<StmtV>) -> Seq<StmtV> {
    let all = reminded(declared, plan);
    analyzer::plan_enriched(all).skip(all.len() - plan.len())
}

/// On a line that spells `plan`, the session `s` becomes `t` and the response is `out`.
pub open spec fn answers_plan(
    sc: Scoring,
    sh: Showing,
    s: ServerV,
    plan: Seq<StmtV>,
    t: ServerV,
    out: Seq<char>,
) -> bool {
    let all = reminded(s.declared, plan);
    let run = executed(s.declared, plan);
    let n = run.len() as int;
    if !analyzer::faultless(analyzer::builtin_tables(), all) {
        t == s && exists|e: AnErrV| #[trigger]
            analyzer::first_fault(analyzer::builtin_tables(), all, e) && out == refusal(
                analyzer::analysis_error_text(e),
            )
    } else if !engine::plan_runs(s.db.store, run) {
        t == s && exists|e: ErrorV| #[trigger]
            engine::plan_fails(s.db.store, run, e) && out == refusal(error::error_text(e))
    } else {
        let results = engine::results_at(sc, s.db.store, run, n);
        &&& t == ServerV {
            db: DbV { store: engine::store_at(s.db.store, run, n), ..s.db },
            declared: declared_after(s.declared, plan, plan.len() as int),
        }
        &&& out == result_lines(sh, results, results.len() as int) + "OK"@
    }
}

/// On `line`, the session `s` becomes `t` and the response is `out`.
pub open spec fn answers(
    g: spec_fn(NumeralV) -> FormV,
    sc: Scoring,
    sh: Showing,
    s: ServerV,
    line: Seq<char>,
    t: ServerV,
    out: Seq<char>,
) -> bool {
    let program = text::trimmed(line);
    if program.len() == 0 {
        t == s && out == "OK"@
    } else {
        match parser::parse_text(program, g) {
            Err(e) => t == s && out == refusal(parser::err_text(e)),
            Ok(plan) => answers_plan(sc, sh, s, plan, t, out),
        }
    }
}

impl Server {
    /// A fresh session.
    pub fn new() -> (r: Self)
        ensures
            r@ == (ServerV { db: database::empty_db(), declared: Seq::empty() }),
    {
        Server { db: Database::default(), declared: OrdMap::new() }
    }

    /// Handles one line and returns the response. `forms` gives the floating-point form of the
    /// numbers in it, `f` computes the scores, and `show` writes numbers.
    pub fn handle_line<
        N: Fn(Numeral) -> Form,
        F: Fn(ScoreTask) -> u32,
        S: Fn(Shown) -> String,
    >(&mut self, line: &str, forms: &N, f: &F, show: &S) -> (r: String)
        requires
            number::takes_numerals(*forms),
            score::takes_tasks(*f),
            render::takes_shown(*show),
        ensures
            forall|g: spec_fn(NumeralV) -> FormV, sc: Scoring, sh: Showing|
                #![trigger number::forms_by(*forms, g), score::scores_by(*f, sc), render::shows_by(*show, sh)]
                number::forms_by(*forms, g) && score::scores_by(*f, sc) && render::shows_by(
                    *show,
                    sh,
                ) ==> answers(g, sc, sh, old(self)@, line@, final(self)@, r@),
    {
        let program = text::trim(line);
        if program.as_str().is_empty() {
            return text::owned("OK");
        }
        let plan = match parser::parse(program.as_str(), forms) {
            Ok(plan) => plan,
            Err(e) => {
                let m = e.to_text();
                return refuse(m.as_str());
            },
        };
        let ghost stmts = ordmap::views(plan@);
        let all = remind(&self.declared, &plan);
        assert(all@.len() == ordmap::views(all@).len() && plan@.len() == stmts.len());
        let prefix: usize = all.len() - plan.len();
        let ghost allv = ordmap::views(all@);
        let analyzed = match Analyzer::analyze(&all) {
            Ok(plan) => plan,
            Err(e) => {
                let m = e.to_text();
                proof {
                    let i = choose|i: int|
                        0 <= i < allv.len() && #[trigger] analyzer::fault_at(
                            analyzer::builtin_tables(),
                            allv,
                            i,
                        ) == Some(e@);
                    assert(!analyzer::faultless(analyzer::builtin_tables(), allv));
                }
                return refuse(m.as_str());
            },
        };
        assert(analyzed@.len() == ordmap::views(analyzed@).len());
        let run = tail_of(analyzed, prefix);
        let ghost runv = ordmap::views(run@);
        assert(runv == executed(self.declared@, stmts));
        match self.db.execute(&run, f) {
            Ok(results) => {
                note_declarations(&mut self.declared, &plan);
                let mut out = format_results(&results, show);
                out.append("OK");
                proof {
                    assert forall|sc: Scoring, sh: Showing|
                        #![trigger score::scores_by(*f, sc), render::shows_by(*show, sh)]
                        score::scores_by(*f, sc) && render::shows_by(*show, sh) implies answers_plan(
                        sc,
                        sh,
                        old(self)@,
                        stmts,
                        self@,
                        out@,
                    ) by {
                        assert(ordmap::views(results@) == engine::results_at(
                            sc,
                            old(self)@.db.store,
                            runv,
                            runv.len() as int,
                        ));
                    }
                }
                out
            },
            Err(e) => {
                let m = e.to_text();
                proof {
                    let s = old(self)@.db.store;
                    let i = choose|i: int|
                        0 <= i < runv.len() && #[trigger] engine::plan_fault_at(s, runv, i) == Some(
                            e@,
                        );
                    assert(!engine::plan_runs(s, runv));
                }
                refuse(m.as_str())
            },
        }
    }
}

impl Default for Server {
    /// A fresh session.
    fn default() -> (r: Self)
        ensures
            r@ == (ServerV { db: database::empty_db(), declared: Seq::empty() }),
    {
        Server::new()
    }
}

// ---------------------------------------------------------------------------------------------
// Laws
// ---------------------------------------------------------------------------------------------
/// What is executed for a line are its own statements, each as analysis makes it: the declarations
/// put in front are not executed.
pub proof fn law_only_the_line_is_executed(declared: DeclaredV, plan: Seq<StmtV>)
    ensures
        executed(declared, plan) == analyzer::plan_enriched(plan),
{
    assert(executed(declared, plan) =~= analyzer::plan_enriched(plan));
}

proof fn lemma_label_start(k: crate::engine::KindV)
    ensures
        render::label_text(k).len() > 0,
        render::label_text(k)[0] != 'E',
{
    reveal_strlit("SELECT ");
    reveal_strlit("MATCH ");
    reveal_strlit("CLOSURE ");
}

/// Written on one line, a text that does not start with `E` does not either.
proof fn lemma_line_start(s: Seq<char>)
    requires
        s.len() > 0,
        s[0] != 'E',
    ensures
        text::one_line(s).len() > 0,
        text::one_line(s)[0] != 'E',
    decreases s.len(),
{
    if s.len() > 1 {
        lemma_line_start(s.drop_last());
        assert(text::one_line(s)[0] == text::one_line(s.drop_last())[0]);
    } else {
        assert(s.drop_last() =~= Seq::<char>::empty());
        assert(text::one_line(s.drop_last()) =~= Seq::<char>::empty());
        assert(text::one_line(s) =~= text::on_line(s[0]));
    }
}

proof fn lemma_lines_start(sh: Showing, results: Seq<ResV>, n: int)
    requires
        0 <= n <= results.len(),
    ensures
        ({
            let out = result_lines(sh, results, n) + "OK"@;
            out.len() > 0 && out[0] != 'E'
        }),
    decreases n,
{
    reveal_strlit("OK");
    if n > 0 {
        lemma_lines_start(sh, results, n - 1);
        lemma_label_start(results[n - 1].kind);
        let before = result_lines(sh, results, n - 1);
        let out = result_lines(sh, results, n) + "OK"@;
        let line = result_line(sh, results[n - 1]);
        let whole = result_text(sh, results[n - 1]);
        assert(whole[0] == render::label_text(results[n - 1].kind)[0]);
        lemma_line_start(whole);
        if before.len() > 0 {
            assert((before + "OK"@)[0] == before[0]);
            assert(out[0] == before[0]);
        } else {
            assert(out[0] == line[0]);
        }
    }
}

/// A line that is answered with an error changes nothing: neither the store nor what is declared.
pub proof fn law_refused_line_changes_nothing(
    g: spec_fn(NumeralV) -> FormV,
    sc: Scoring,
    sh: Showing,
    s: ServerV,
    line: Seq<char>,
    t: ServerV,
    out: Seq<char>,
)
    requires
        answers(g, sc, sh, s, line, t, out),
        out.len() >= 4,
        out.take(4) == "ERR "@,
    ensures
        t == s,
{
    reveal_strlit("ERR ");
    assert(out[0] == out.take(4)[0]);
    let program = text::trimmed(line);
    if program.len() > 0 {
        if let Ok(plan) = parser::parse_text(program, g) {
            let run = executed(s.declared, plan);
            let results = engine::results_at(sc, s.db.store, run, run.len() as int);
            lemma_lines_start(sh, results, results.len() as int);
        }
    }
}

/// Every response is an error or ends in `OK`.
pub proof fn law_every_line_is_answered(
    g: spec_fn(NumeralV) -> FormV,
    sc: Scoring,
    sh: Showing,
    s: ServerV,
    line: Seq<char>,
    t: ServerV,
    out: Seq<char>,
)
    requires
        answers(g, sc, sh, s, line, t, out),
    ensures
        ({
            ||| out.len() >= 4 && out.take(4) == "ERR "@
            ||| out.len() >= 2 && out.skip(out.len() - 2) == "OK"@
        }),
{
    reveal_strlit("ERR ");
    reveal_strlit("OK");
    let program = text::trimmed(line);
    if program.len() == 0 {
        assert(out.skip(out.len() - 2) =~= "OK"@);
    } else {
        match parser::parse_text(program, g) {
            Err(e) => {
                assert(out.take(4) =~= "ERR "@);
            },
            Ok(plan) => {
                let all = reminded(s.declared, plan);
                let run = executed(s.declared, plan);
                if !analyzer::faultless(analyzer::builtin_tables(), all) {
                    assert(out.take(4) =~= "ERR "@);
                } else if !engine::plan_runs(s.db.store, run) {
                    assert(out.take(4) =~= "ERR "@);
                } else {
                    assert(out.skip(out.len() - 2) =~= "OK"@);
                }
            },
        }
    }
}

/// A refusal is one line: a response that starts with `ERR ` breaks no line, whatever the message.
pub proof fn law_refusal_is_one_line(
    g: spec_fn(NumeralV) -> FormV,
    sc: Scoring,
    sh: Showing,
    s: ServerV,
    line: Seq<char>,
    t: ServerV,
    out: Seq<char>,
)
    requires
        answers(g, sc, sh, s, line, t, out),
        out.len() >= 4,
        out.take(4) == "ERR "@,
    ensures
        text::is_line(out),
{
    reveal_strlit("ERR ");
    reveal_strlit("OK");
    assert(out[0] == out.take(4)[0]);
    let program = text::trimmed(line);
    if program.len() > 0 {
        match parser::parse_text(program, g) {
            Err(e) => {
                text::law_one_line(parser::err_text(e));
            },
            Ok(plan) => {
                let all = reminded(s.declared, plan);
                let run = executed(s.declared, plan);
                if !analyzer::faultless(analyzer::builtin_tables(), all) {
                    let e = choose|e: AnErrV| #[trigger]
                        analyzer::first_fault(analyzer::builtin_tables(), all, e) && out == refusal(
                            analyzer::analysis_error_text(e),
                        );
                    text::law_one_line(analyzer::analysis_error_text(e));
                } else if !engine::plan_runs(s.db.store, run) {
                    let e = choose|e: ErrorV| #[trigger]
                        engine::plan_fails(s.db.store, run, e) && out == refusal(
                            error::error_text(e),
                        );
                    text::law_one_line(error::error_text(e));
                } else {
                    let results = engine::results_at(sc, s.db.store, run, run.len() as int);
                    lemma_lines_start(sh, results, results.len() as int);
                }
            },
        }
    }
}

/// A result is one line: whatever its records hold, it breaks no line, so a response has one line
/// for each result and one for the closing `OK`.
pub proof fn law_result_is_one_line(sh: Showing, results: Seq<ResV>, n: int)
    requires
        0 <= n <= results.len(),
    ensures
        forall|i: int| 0 <= i < n ==> text::is_line(result_line(sh, #[trigger] results[i])),
        breaks(result_lines(sh, results, n)) == n,
    decreases n,
{
    if n > 0 {
        law_result_is_one_line(sh, results, n - 1);
        let line = result_line(sh, results[n - 1]);
        let before = result_lines(sh, results, n - 1);
        text::law_one_line(result_text(sh, results[n - 1]));
        reveal_strlit("\n");
        lemma_no_breaks(line);
        lemma_breaks_add(before, line);
        assert(result_lines(sh, results, n).drop_last() =~= before + line);
    }
}

/// How many line breaks a text has.
pub open spec fn breaks(s: Seq<char>) -> int
    decreases s.len(),
{
    if s.len() == 0 {
        0
    } else {
        breaks(s.drop_last()) + if s.last() == '\n' {
            1int
        } else {
            0
        }
    }
}

proof fn lemma_no_breaks(s: Seq<char>)
    requires
        text::is_line(s),
    ensures
        breaks(s) == 0,
    decreases s.len(),
{
    if s.len() > 0 {
        assert forall|i: int| 0 <= i < s.drop_last().len() implies #[trigger] s.drop_last()[i] != '\n'
            && s.drop_last()[i] != '\r' by {
            assert(s[i] == s.drop_last()[i]);
        }
        assert(s[s.len() - 1] != '\n');
        lemma_no_breaks(s.drop_last());
    }
}

proof fn lemma_breaks_add(a: Seq<char>, b: Seq<char>)
    ensures
        breaks(a + b) == breaks(a) + breaks(b),
    decreases b.len(),
{
    if b.len() == 0 {
        assert(a + b =~= a);
    } else {
        lemma_breaks_add(a, b.drop_last());
        assert((a + b).drop_last() =~= a + b.drop_last());
        assert((a + b).last() == b.last());
    }
}

/// Some statement among the first `n` declares the table.
spec fn seen(all: Seq<StmtV>, table: Seq<char>, n: int) -> bool {
    exists|j: int|
        0 <= j < n && #[trigger] all[j] is CreateTable && all[j]->CreateTable_table == table
}

proof fn lemma_declared_ctx(
    all: Seq<StmtV>,
    table: Seq<char>,
    dim: Option<usize>,
    n: int,
)
    requires
        0 <= n <= all.len(),
        forall|j: int|
            0 <= j < all.len() && #[trigger] all[j] is CreateTable && all[j]->CreateTable_table
                == table ==> all[j]->CreateTable_vector_dim == dim,
    ensures
        ({
            let ctx = analyzer::ctx_at(analyzer::builtin_tables(), all, n);
            &&& ordmap::ascending::<String, ()>(ctx.declared)
            &&& ordmap::ascending::<String, usize>(ctx.vector_dims)
            &&& seen(all, table, n) ==> analyzer::declares(ctx, table) && ordmap::lookup::<
                String,
                usize,
            >(ctx.vector_dims, table) == dim
            &&& !seen(all, table, n) ==> ordmap::lookup::<String, usize>(
                ctx.vector_dims,
                table,
            ) is None
        }),
    decreases n,
{
    let start = analyzer::builtin_tables();
    if n <= 0 {
        ordmap::lemma_put_ascending::<String, ()>(Seq::empty(), "global"@, ());
        ordmap::lemma_put_ascending::<String, ()>(
            ordmap::put::<String, ()>(Seq::empty(), "global"@, ()),
            "meta"@,
            (),
        );
    } else {
        lemma_declared_ctx(all, table, dim, n - 1);
        let before = analyzer::ctx_at(start, all, n - 1);
        if seen(all, table, n - 1) {
            let j = choose|j: int|
                0 <= j < n - 1 && #[trigger] all[j] is CreateTable && all[j]->CreateTable_table
                    == table;
            assert(all[j] is CreateTable);
        }
        if let StmtV::CreateTable { table: t, vector_dim } = all[n - 1] {
            ordmap::lemma_put_ascending::<String, ()>(before.declared, t, ());
            ordmap::lemma_put_lookup_same::<String, ()>(before.declared, t, ());
            if t != table {
                ordmap::lemma_put_lookup_other::<String, ()>(before.declared, t, (), table);
            }
            if let Some(d) = vector_dim {
                ordmap::lemma_put_ascending::<String, usize>(before.vector_dims, t, d);
                ordmap::lemma_put_lookup_same::<String, usize>(before.vector_dims, t, d);
                if t != table {
                    ordmap::lemma_put_lookup_other::<String, usize>(
                        before.vector_dims,
                        t,
                        d,
                        table,
                    );
                }
            }
        }
    }
}

proof fn lemma_reminders(declared: DeclaredV, plan: Seq<StmtV>, n: int)
    requires
        0 <= n <= declared.len(),
    ensures
        ({
            let r = reminders(declared, plan, n);
            &&& forall|j: int|
                0 <= j < r.len() ==> #[trigger] r[j] is CreateTable && exists|i: int|
                    0 <= i < n && r[j]->CreateTable_table == (#[trigger] declared[i]).0
                        && r[j]->CreateTable_vector_dim == declared[i].1
            &&& forall|i: int|
                0 <= i < n && !redeclares(plan, (#[trigger] declared[i]).0) ==> r.contains(
                    StmtV::CreateTable { table: declared[i].0, vector_dim: declared[i].1 },
                )
        }),
    decreases n,
{
    if n > 0 {
        lemma_reminders(declared, plan, n - 1);
        let before = reminders(declared, plan, n - 1);
        let r = reminders(declared, plan, n);
        let last = StmtV::CreateTable { table: declared[n - 1].0, vector_dim: declared[n - 1].1 };
        assert forall|j: int| 0 <= j < r.len() implies #[trigger] r[j] is CreateTable && exists|
            i: int,
        |
            0 <= i < n && r[j]->CreateTable_table == (#[trigger] declared[i]).0
                && r[j]->CreateTable_vector_dim == declared[i].1 by {
            if j < before.len() {
                assert(r[j] == before[j]);
                let i = choose|i: int|
                    0 <= i < n - 1 && before[j]->CreateTable_table == (#[trigger] declared[i]).0
                        && before[j]->CreateTable_vector_dim == declared[i].1;
                assert(declared[i].0 == r[j]->CreateTable_table);
            } else {
                assert(r[j] == last);
                assert(declared[n - 1].0 == r[j]->CreateTable_table);
            }
        }
        assert forall|i: int|
            0 <= i < n && !redeclares(plan, (#[trigger] declared[i]).0) implies r.contains(
            StmtV::CreateTable { table: declared[i].0, vector_dim: declared[i].1 },
        ) by {
            let want = StmtV::CreateTable { table: declared[i].0, vector_dim: declared[i].1 };
            if i < n - 1 {
                assert(before.contains(want));
                let k = choose|k: int| 0 <= k < before.len() && before[k] == want;
                assert(r[k] == want);
            } else {
                assert(r[before.len() as int] == want);
            }
        }
    }
}

/// A declaration of an earlier line holds on every later line that does not make its own: the table
/// is known to each statement, and so is its dimension.
pub proof fn law_earlier_declarations_hold(
    declared: DeclaredV,
    plan: Seq<StmtV>,
    table: Seq<char>,
    dim: Option<usize>,
    i: int,
)
    requires
        ordmap::ascending::<String, Option<usize>>(declared),
        ordmap::lookup::<String, Option<usize>>(declared, table) == Some(dim),
        !redeclares(plan, table),
        0 <= i <= plan.len(),
    ensures
        ({
            let all = reminded(declared, plan);
            let ctx = analyzer::ctx_at(
                analyzer::builtin_tables(),
                all,
                all.len() - plan.len() + i,
            );
            &&& analyzer::declares(ctx, table)
            &&& ordmap::lookup::<String, usize>(ctx.vector_dims, table) == dim
        }),
{
    let head = reminders(declared, plan, declared.len() as int);
    let all = reminded(declared, plan);
    lemma_reminders(declared, plan, declared.len() as int);
    let p = ordmap::slot::<String, Option<usize>>(declared, table, 0);
    ordmap::lemma_slot::<String, Option<usize>>(declared, table, 0);
    assert(declared[p].0 == table && declared[p].1 == dim);
    assert forall|j: int|
        0 <= j < all.len() && #[trigger] all[j] is CreateTable && all[j]->CreateTable_table
            == table implies all[j]->CreateTable_vector_dim == dim by {
        if j < head.len() {
            assert(head[j] == all[j]);
            let k = choose|k: int|
                0 <= k < declared.len() && head[j]->CreateTable_table == (#[trigger] declared[k]).0
                    && head[j]->CreateTable_vector_dim == declared[k].1;
            ordmap::lemma_found::<String, Option<usize>>(declared, k);
        } else {
            assert(plan[j - head.len()] == all[j]);
        }
    }
    let want = StmtV::CreateTable { table, vector_dim: dim };
    assert(head.contains(want));
    let k = choose|k: int| 0 <= k < head.len() && head[k] == want;
    assert(all[k] == want);
    lemma_declared_ctx(all, table, dim, head.len() + i);
    assert(seen(all, table, head.len() + i));
}

/// What a line declares is declared behind it: the last declaration of a table on the line counts.
pub proof fn law_line_declares(declared: DeclaredV, plan: Seq<StmtV>, i: int, n: int)
    requires
        ordmap::ascending::<String, Option<usize>>(declared),
        0 <= i < n <= plan.len(),
        plan[i] is CreateTable,
        forall|j: int|
            i < j < n && #[trigger] plan[j] is CreateTable ==> plan[j]->CreateTable_table
                != plan[i]->CreateTable_table,
    ensures
        ordmap::lookup::<String, Option<usize>>(
            declared_after(declared, plan, n),
            plan[i]->CreateTable_table,
        ) == Some(plan[i]->CreateTable_vector_dim),
    decreases n,
{
    let before = declared_after(declared, plan, n - 1);
    law_declarations_stay_in_order(declared, plan, n - 1);
    if i < n - 1 {
        law_line_declares(declared, plan, i, n - 1);
    }
    if let StmtV::CreateTable { table, vector_dim } = plan[n - 1] {
        if i == n - 1 {
            ordmap::lemma_put_lookup_same::<String, Option<usize>>(before, table, vector_dim);
        } else {
            ordmap::lemma_put_lookup_other::<String, Option<usize>>(
                before,
                table,
                vector_dim,
                plan[i]->CreateTable_table,
            );
        }
    }
}

/// The declarations stay in order: no table stands in them twice.
pub proof fn law_declarations_stay_in_order(declared: DeclaredV, plan: Seq<StmtV>, n: int)
    requires
        ordmap::ascending::<String, Option<usize>>(declared),
        0 <= n <= plan.len(),
    ensures
        ordmap::ascending::<String, Option<usize>>(declared_after(declared, plan, n)),
    decreases n,
{
    if n > 0 {
        law_declarations_stay_in_order(declared, plan, n - 1);
        if let StmtV::CreateTable { table, vector_dim } = plan[n - 1] {
            ordmap::lemma_put_ascending::<String, Option<usize>>(
                declared_after(declared, plan, n - 1),
                table,
                vector_dim,
            );
        }
    }
}

/// A result as it is answered: what it is of, how many rows it has, and the rows with a semicolon between
/// them; without rows it ends behind their number.
pub proof fn law_result_layout(sh: Showing, res: ResV)
    ensures
        res.rows.len() == 0 ==> result_text(sh, res) == render::label_text(res.kind) + " ("@
            + text::dec_text(0) + " rows)"@,
        res.rows.len() == 1 ==> result_text(sh, res) == render::label_text(res.kind) + " ("@
            + text::dec_text(1) + " rows)"@ + ": "@ + render::row_text(sh, " "@, res.rows[0]),
        res.rows.len() == 2 ==> result_text(sh, res) == render::label_text(res.kind) + " ("@
            + text::dec_text(2) + " rows)"@ + ": "@ + (render::row_text(sh, " "@, res.rows[0]) + "; "@
            + render::row_text(sh, " "@, res.rows[1])),
{
    let parts = render::row_texts(sh, " "@, res.rows);
    if res.rows.len() == 1 {
        assert(text::joined(parts, "; "@) == parts[0]);
    }
    if res.rows.len() == 2 {
        assert(parts.drop_last().len() == 1);
        assert(text::joined(parts.drop_last(), "; "@) == parts[0]);
        assert(text::joined(parts, "; "@) == parts[0] + "; "@ + parts[1]);
    }
}

/// A blank line is answered with `OK` and changes nothing; what cannot be read is answered with `ERR` and
/// the error, on one line, and changes nothing.
pub proof fn law_blank_and_unread_lines(
    g: spec_fn(NumeralV) -> FormV,
    sc: Scoring,
    sh: Showing,
    s: ServerV,
    line: Seq<char>,
    t: ServerV,
    out: Seq<char>,
)
    requires
        answers(g, sc, sh, s, line, t, out),
    ensures
        text::trimmed(line).len() == 0 ==> t == s && out == "OK"@,
        text::trimmed(line).len() > 0 ==> (parser::parse_text(text::trimmed(line), g) matches Err(e)
            ==> t == s && out == "ERR "@ + text::one_line(parser::err_text(e))),
{
}

} // verus!
