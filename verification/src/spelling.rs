//! What each form of statement is read as.
//!
//! The laws speak of texts by their tokens: whatever stands between the tokens, and in whatever case
//! the words are written, a text with these tokens spells this statement.
use vstd::prelude::*;

#[allow(unused_imports)]
use crate::ir::{BodyV, EdgeV, FilV, IdV, KnnV, MatchDirection, Order, PathV, RecV, RidV, SelV, StepV, StmtV, ValV};
use crate::lexer;
#[allow(unused_imports)]
use crate::lexer::TokV;
#[allow(unused_imports)]
use crate::number::{FormV, NumeralV};
use crate::ordmap;
use crate::parser;
#[allow(unused_imports)]
use crate::parser::{ErrV, LexV};
use crate::text;

verus! {

/// The text is made of these tokens.
pub open spec fn reads_as(s: Seq<char>, toks: Seq<TokV>) -> bool {
    lexer::lex(s) matches Ok(spans) && spans.len() == toks.len() + 1 && spans.last().tok is Eof
        && forall|k: int| 0 <= k < toks.len() ==> (#[trigger] spans[k]).tok == toks[k]
}

/// The tokens of a text, with their forms and the closing `Eof`.
spec fn lexemes(s: Seq<char>, g: spec_fn(NumeralV) -> FormV) -> Seq<LexV> {
    parser::with_forms(lexer::lex(s)->Ok_0, g)
}

proof fn lemma_lexemes(s: Seq<char>, toks: Seq<TokV>, g: spec_fn(NumeralV) -> FormV)
    requires
        reads_as(s, toks),
    ensures
        ({
            let ts = lexemes(s, g);
            &&& ts.len() == toks.len() + 1
            &&& ts[toks.len() as int].tok is Eof
            &&& forall|k: int| 0 <= k < toks.len() ==> (#[trigger] ts[k]).tok == toks[k]
        }),
{
    let spans = lexer::lex(s)->Ok_0;
    let ts = lexemes(s, g);
    assert forall|k: int| 0 <= k < toks.len() implies (#[trigger] ts[k]).tok == toks[k] by {
        assert(spans[k].tok == toks[k]);
    }
}

/// A text whose tokens are all read as one statement is a program of that statement.
proof fn lemma_one_statement(
    s: Seq<char>,
    toks: Seq<TokV>,
    g: spec_fn(NumeralV) -> FormV,
    stmt: StmtV,
)
    requires
        reads_as(s, toks),
        toks.len() > 0,
        !(toks[0] is Semi),
        !(toks[0] is Eof),
        parser::p_statement(lexemes(s, g), 0) == Ok::<(StmtV, int), ErrV>((stmt, toks.len() as int)),
    ensures
        parser::parse_text(s, g) == Ok::<Seq<StmtV>, ErrV>(seq![stmt]),
        parser::parse_one(s, g) == Ok::<StmtV, ErrV>(stmt),
{
    let ts = lexemes(s, g);
    let n = toks.len() as int;
    lemma_lexemes(s, toks, g);
    assert(ts[0].tok == toks[0]);
    let none = Seq::<StmtV>::empty();
    assert(none.push(stmt) =~= seq![stmt]);
    assert(parser::p_program(ts, n, none.push(stmt)) == Ok::<Seq<StmtV>, ErrV>(none.push(stmt)));
    assert(parser::p_program(ts, 0, none) == parser::p_program(ts, n, none.push(stmt)));
}

/// No two of the words that start a statement are the same.
proof fn lemma_first_words()
    ensures
        text::lower("create"@) == "create"@,
        text::lower("insert"@) == "insert"@,
        text::lower("relate"@) == "relate"@,
        text::lower("match"@) == "match"@,
        text::lower("closure"@) == "closure"@,
        text::lower("select"@) == "select"@,
        text::lower("forget"@) == "forget"@,
        "insert"@ != "create"@,
        "relate"@ != "create"@,
        "relate"@ != "insert"@,
        "match"@ != "create"@,
        "match"@ != "insert"@,
        "match"@ != "relate"@,
        "closure"@ != "create"@,
        "closure"@ != "insert"@,
        "closure"@ != "relate"@,
        "closure"@ != "match"@,
        "select"@ != "create"@,
        "select"@ != "insert"@,
        "select"@ != "relate"@,
        "select"@ != "match"@,
        "select"@ != "closure"@,
        "forget"@ != "create"@,
        "forget"@ != "insert"@,
        "forget"@ != "relate"@,
        "forget"@ != "match"@,
        "forget"@ != "closure"@,
        "forget"@ != "select"@,
{
    reveal_strlit("create");
    reveal_strlit("insert");
    reveal_strlit("relate");
    reveal_strlit("match");
    reveal_strlit("closure");
    reveal_strlit("select");
    reveal_strlit("forget");
    assert(text::lower("create"@) =~= "create"@);
    assert(text::lower("insert"@) =~= "insert"@);
    assert(text::lower("relate"@) =~= "relate"@);
    assert(text::lower("match"@) =~= "match"@);
    assert(text::lower("closure"@) =~= "closure"@);
    assert(text::lower("select"@) =~= "select"@);
    assert(text::lower("forget"@) =~= "forget"@);
    assert("create"@[0] == 'c' && "create"@[1] == 'r');
    assert("insert"@[0] == 'i');
    assert("relate"@[0] == 'r');
    assert("match"@[0] == 'm');
    assert("closure"@[0] == 'c' && "closure"@[1] == 'l');
    assert("select"@[0] == 's');
    assert("forget"@[0] == 'f');
}

/// The words inside statements, in lower case, and that those which start a clause differ.
proof fn lemma_inner_words()
    ensures
        text::lower("table"@) == "table"@,
        text::lower("vector"@) == "vector"@,
        text::lower("f32"@) == "f32"@,
        text::lower("into"@) == "into"@,
        text::lower("embed"@) == "embed"@,
        text::lower("set"@) == "set"@,
        text::lower("weight"@) == "weight"@,
        text::lower("from"@) == "from"@,
        text::lower("where"@) == "where"@,
        text::lower("order"@) == "order"@,
        text::lower("by"@) == "by"@,
        text::lower("as"@) == "as"@,
        text::lower("of"@) == "of"@,
        text::lower("limit"@) == "limit"@,
        text::lower("is"@) == "is"@,
        text::lower("not"@) == "not"@,
        text::lower("null"@) == "null"@,
        text::lower("and"@) == "and"@,
        text::lower("k"@) == "k"@,
        text::lower("bm25"@) == "bm25"@,
        text::lower("similarity"@) == "similarity"@,
        text::lower("embedding"@) == "embedding"@,
        "order"@ != "where"@,
        "as"@ != "where"@,
        "as"@ != "order"@,
        "limit"@ != "where"@,
        "limit"@ != "order"@,
        "limit"@ != "as"@,
        "vector"@ != "embedding"@,
{
    reveal_strlit("table");
    reveal_strlit("vector");
    reveal_strlit("f32");
    reveal_strlit("into");
    reveal_strlit("embed");
    reveal_strlit("set");
    reveal_strlit("weight");
    reveal_strlit("from");
    reveal_strlit("where");
    reveal_strlit("order");
    reveal_strlit("by");
    reveal_strlit("as");
    reveal_strlit("of");
    reveal_strlit("limit");
    reveal_strlit("is");
    reveal_strlit("not");
    reveal_strlit("null");
    reveal_strlit("and");
    reveal_strlit("k");
    reveal_strlit("bm25");
    reveal_strlit("similarity");
    reveal_strlit("embedding");
    assert(text::lower("table"@) =~= "table"@);
    assert(text::lower("vector"@) =~= "vector"@);
    assert(text::lower("f32"@) =~= "f32"@);
    assert(text::lower("into"@) =~= "into"@);
    assert(text::lower("embed"@) =~= "embed"@);
    assert(text::lower("set"@) =~= "set"@);
    assert(text::lower("weight"@) =~= "weight"@);
    assert(text::lower("from"@) =~= "from"@);
    assert(text::lower("where"@) =~= "where"@);
    assert(text::lower("order"@) =~= "order"@);
    assert(text::lower("by"@) =~= "by"@);
    assert(text::lower("as"@) =~= "as"@);
    assert(text::lower("of"@) =~= "of"@);
    assert(text::lower("limit"@) =~= "limit"@);
    assert(text::lower("is"@) =~= "is"@);
    assert(text::lower("not"@) =~= "not"@);
    assert(text::lower("null"@) =~= "null"@);
    assert(text::lower("and"@) =~= "and"@);
    assert(text::lower("k"@) =~= "k"@);
    assert(text::lower("bm25"@) =~= "bm25"@);
    assert(text::lower("similarity"@) =~= "similarity"@);
    assert(text::lower("embedding"@) =~= "embedding"@);
    assert("where"@[0] == 'w');
    assert("order"@[0] == 'o');
    assert("as"@[0] == 'a');
    assert("limit"@[0] == 'l');
    assert("vector"@[0] == 'v');
    assert("embedding"@[0] == 'e');
}

// ---------------------------------------------------------------------------------------------
// ORDER BY
// ---------------------------------------------------------------------------------------------
/// No two of the order words are the same.
proof fn lemma_order_words()
    ensures
        "salience"@ != "similarity"@,
        "score"@ != "similarity"@,
        "score"@ != "salience"@,
        "recency"@ != "similarity"@,
        "recency"@ != "salience"@,
        "recency"@ != "score"@,
        "votes"@ != "similarity"@,
        "votes"@ != "salience"@,
        "votes"@ != "score"@,
        "votes"@ != "recency"@,
        "feedback"@ != "similarity"@,
        "feedback"@ != "salience"@,
        "feedback"@ != "score"@,
        "feedback"@ != "recency"@,
        "feedback"@ != "votes"@,
{
    reveal_strlit("similarity");
    reveal_strlit("salience");
    reveal_strlit("score");
    reveal_strlit("recency");
    reveal_strlit("votes");
    reveal_strlit("feedback");
    assert("similarity"@.len() == 10);
    assert("salience"@[1] == 'a' && "salience"@[0] == 's');
    assert("score"@[1] == 'c' && "score"@[0] == 's');
    assert("recency"@[0] == 'r');
    assert("votes"@[0] == 'v');
    assert("feedback"@[0] == 'f');
}

/// The tokens of `SELECT * FROM <table> ORDER BY <word>`, with `mark` before the word.
pub open spec fn ordered_select(
    select: Seq<char>,
    from: Seq<char>,
    table: Seq<char>,
    order: Seq<char>,
    by: Seq<char>,
    mark: Seq<TokV>,
    word: Seq<char>,
) -> Seq<TokV> {
    seq![
        TokV::Ident(select),
        TokV::Star,
        TokV::Ident(from),
        TokV::Ident(table),
        TokV::Ident(order),
        TokV::Ident(by),
    ] + mark + seq![TokV::Ident(word)]
}

/// `SELECT * FROM <table> ORDER BY <word>` is read as a selection under the order that the word
/// names: each of the six words, in any case, with `::`, `:` or nothing before it, names the order of
/// its own name. Any other word is an error.
#[verifier::rlimit(40)]
pub proof fn law_order_words(
    s: Seq<char>,
    select: Seq<char>,
    from: Seq<char>,
    table: Seq<char>,
    order: Seq<char>,
    by: Seq<char>,
    mark: Seq<TokV>,
    word: Seq<char>,
    g: spec_fn(NumeralV) -> FormV,
)
    requires
        reads_as(s, ordered_select(select, from, table, order, by, mark, word)),
        text::lower(select) == "select"@,
        text::lower(from) == "from"@,
        text::lower(order) == "order"@,
        text::lower(by) == "by"@,
        mark == Seq::<TokV>::empty() || mark == seq![TokV::DoubleColon] || mark == seq![TokV::Colon],
    ensures
        text::lower(word) == "similarity"@ ==> parser::parse_text(s, g) == Ok::<Seq<StmtV>, ErrV>(
            seq![
                StmtV::Select(
                    SelV {
                        table,
                        knn: None,
                        filter: None,
                        order: Some(Order::Similarity),
                        limit: None,
                        as_of: None,
                    },
                ),
            ],
        ),
        text::lower(word) == "salience"@ ==> parser::parse_text(s, g) == Ok::<Seq<StmtV>, ErrV>(
            seq![
                StmtV::Select(
                    SelV {
                        table,
                        knn: None,
                        filter: None,
                        order: Some(Order::Salience),
                        limit: None,
                        as_of: None,
                    },
                ),
            ],
        ),
        text::lower(word) == "score"@ ==> parser::parse_text(s, g) == Ok::<Seq<StmtV>, ErrV>(
            seq![
                StmtV::Select(
                    SelV {
                        table,
                        knn: None,
                        filter: None,
                        order: Some(Order::Score),
                        limit: None,
                        as_of: None,
                    },
                ),
            ],
        ),
        text::lower(word) == "recency"@ ==> parser::parse_text(s, g) == Ok::<Seq<StmtV>, ErrV>(
            seq![
                StmtV::Select(
                    SelV {
                        table,
                        knn: None,
                        filter: None,
                        order: Some(Order::Recency),
                        limit: None,
                        as_of: None,
                    },
                ),
            ],
        ),
        text::lower(word) == "votes"@ ==> parser::parse_text(s, g) == Ok::<Seq<StmtV>, ErrV>(
            seq![
                StmtV::Select(
                    SelV {
                        table,
                        knn: None,
                        filter: None,
                        order: Some(Order::Votes),
                        limit: None,
                        as_of: None,
                    },
                ),
            ],
        ),
        text::lower(word) == "feedback"@ ==> parser::parse_text(s, g) == Ok::<Seq<StmtV>, ErrV>(
            seq![
                StmtV::Select(
                    SelV {
                        table,
                        knn: None,
                        filter: None,
                        order: Some(Order::Feedback),
                        limit: None,
                        as_of: None,
                    },
                ),
            ],
        ),
        parser::parse_text(s, g) is Ok ==> text::lower(word) == "similarity"@ || text::lower(word)
            == "salience"@ || text::lower(word) == "score"@ || text::lower(word) == "recency"@
            || text::lower(word) == "votes"@ || text::lower(word) == "feedback"@,
{
    let toks = ordered_select(select, from, table, order, by, mark, word);
    let ts = lexemes(s, g);
    let n = toks.len() as int;
    lemma_lexemes(s, toks, g);
    lemma_first_words();
    lemma_inner_words();
    lemma_order_words();
    assert(ts[0].tok == TokV::Ident(select));
    assert(ts[1].tok == TokV::Star);
    assert(ts[2].tok == TokV::Ident(from));
    assert(ts[3].tok == TokV::Ident(table));
    assert(ts[4].tok == TokV::Ident(order));
    assert(ts[5].tok == TokV::Ident(by));
    if mark.len() > 0 {
        assert(ts[6].tok == mark[0]);
    }
    assert(ts[n - 1].tok == TokV::Ident(word));
    assert(parser::p_fields(ts, 1) == Ok::<int, ErrV>(2));
    let plain = parser::select_all(table);
    reveal(parser::p_clause);
    assert(parser::p_clause(ts, n, plain) is None);
    if let Some(o) = parser::order_named(word) {
        let sel = SelV { order: Some(o), ..plain };
        assert(parser::p_order(ts, 5) == Ok::<(Order, int), ErrV>((o, n)));
        assert(parser::p_clause(ts, 4, plain) == Some(Ok::<(SelV, int), ErrV>((sel, n))));
        assert(parser::p_clause(ts, n, sel) is None);
        assert(parser::p_clauses(ts, n, sel) == Ok::<(SelV, int), ErrV>((sel, n)));
        assert(parser::p_clauses(ts, 4, plain) == Ok::<(SelV, int), ErrV>((sel, n)));
        assert(parser::p_statement(ts, 0) == Ok::<(StmtV, int), ErrV>((StmtV::Select(sel), n))) by {
            reveal(parser::p_statement);
        }
        lemma_one_statement(s, toks, g, StmtV::Select(sel));
    } else {
        assert(parser::p_order(ts, 5) is Err);
        assert(parser::p_clauses(ts, 4, plain) is Err);
        assert(parser::p_statement(ts, 0) is Err) by {
            reveal(parser::p_statement);
        }
        assert(parser::p_program(ts, 0, Seq::empty()) is Err);
    }
}

/// No two order words give the same order: texts of this form that are read as selections under one
/// order have the same word in them, but for case.
pub proof fn law_order_words_differ(
    s: Seq<char>,
    t: Seq<char>,
    select: Seq<char>,
    from: Seq<char>,
    table: Seq<char>,
    order: Seq<char>,
    by: Seq<char>,
    mark: Seq<TokV>,
    word: Seq<char>,
    other: Seq<char>,
    g: spec_fn(NumeralV) -> FormV,
)
    requires
        reads_as(s, ordered_select(select, from, table, order, by, mark, word)),
        reads_as(t, ordered_select(select, from, table, order, by, mark, other)),
        text::lower(select) == "select"@,
        text::lower(from) == "from"@,
        text::lower(order) == "order"@,
        text::lower(by) == "by"@,
        mark == Seq::<TokV>::empty() || mark == seq![TokV::DoubleColon] || mark == seq![TokV::Colon],
        parser::parse_text(s, g) is Ok,
        parser::parse_text(s, g) == parser::parse_text(t, g),
    ensures
        text::lower(word) == text::lower(other),
{
    law_order_words(s, select, from, table, order, by, mark, word, g);
    law_order_words(t, select, from, table, order, by, mark, other, g);
    let a = parser::parse_text(s, g)->Ok_0[0];
    let b = parser::parse_text(t, g)->Ok_0[0];
    assert(a == b);
    assert(a->Select_0.order == b->Select_0.order);
}

// ---------------------------------------------------------------------------------------------
// CREATE and FORGET
// ---------------------------------------------------------------------------------------------
/// `CREATE TABLE <table>` declares a table without a dimension.
pub proof fn law_create_table(
    s: Seq<char>,
    create: Seq<char>,
    tab: Seq<char>,
    table: Seq<char>,
    g: spec_fn(NumeralV) -> FormV,
)
    requires
        reads_as(s, seq![TokV::Ident(create), TokV::Ident(tab), TokV::Ident(table)]),
        text::lower(create) == "create"@,
        text::lower(tab) == "table"@,
    ensures
        parser::parse_text(s, g) == Ok::<Seq<StmtV>, ErrV>(
            seq![StmtV::CreateTable { table, vector_dim: None }],
        ),
{
    let toks = seq![TokV::Ident(create), TokV::Ident(tab), TokV::Ident(table)];
    let ts = lexemes(s, g);
    lemma_lexemes(s, toks, g);
    lemma_first_words();
    lemma_inner_words();
    assert(ts[0].tok == toks[0] && ts[1].tok == toks[1] && ts[2].tok == toks[2]);
    let stmt = StmtV::CreateTable { table, vector_dim: None };
    assert(parser::p_statement(ts, 0) == Ok::<(StmtV, int), ErrV>((stmt, 3))) by {
        reveal(parser::p_statement);
    }
    lemma_one_statement(s, toks, g, stmt);
}

/// `CREATE TABLE <table> VECTOR<f32, n>` declares a table of the dimension `n`.
pub proof fn law_create_table_with_vectors(
    s: Seq<char>,
    create: Seq<char>,
    tab: Seq<char>,
    table: Seq<char>,
    vector: Seq<char>,
    element: Seq<char>,
    n: i64,
    g: spec_fn(NumeralV) -> FormV,
)
    requires
        reads_as(
            s,
            seq![
                TokV::Ident(create),
                TokV::Ident(tab),
                TokV::Ident(table),
                TokV::Ident(vector),
                TokV::Lt,
                TokV::Ident(element),
                TokV::Comma,
                TokV::Int(n),
                TokV::Gt,
            ],
        ),
        text::lower(create) == "create"@,
        text::lower(tab) == "table"@,
        text::lower(vector) == "vector"@,
        text::lower(element) == "f32"@,
        0 < n <= usize::MAX,
    ensures
        parser::parse_text(s, g) == Ok::<Seq<StmtV>, ErrV>(
            seq![StmtV::CreateTable { table, vector_dim: Some(n as usize) }],
        ),
{
    let toks = seq![
        TokV::Ident(create),
        TokV::Ident(tab),
        TokV::Ident(table),
        TokV::Ident(vector),
        TokV::Lt,
        TokV::Ident(element),
        TokV::Comma,
        TokV::Int(n),
        TokV::Gt,
    ];
    let ts = lexemes(s, g);
    lemma_lexemes(s, toks, g);
    lemma_first_words();
    lemma_inner_words();
    assert(ts[0].tok == toks[0] && ts[1].tok == toks[1] && ts[2].tok == toks[2]);
    assert(ts[3].tok == toks[3] && ts[4].tok == toks[4] && ts[5].tok == toks[5]);
    assert(ts[6].tok == toks[6] && ts[7].tok == toks[7] && ts[8].tok == toks[8]);
    let stmt = StmtV::CreateTable { table, vector_dim: Some(n as usize) };
    assert(parser::p_dim(ts, 4) == Ok::<(usize, int), ErrV>((n as usize, 9)));
    assert(parser::p_statement(ts, 0) == Ok::<(StmtV, int), ErrV>((stmt, 9))) by {
        reveal(parser::p_statement);
    }
    lemma_one_statement(s, toks, g, stmt);
}

/// The token names the id of a record: a number that is not negative itself, a word or a negative
/// number by its letters.
pub open spec fn names_id(t: TokV, id: IdV) -> bool {
    match t {
        TokV::Int(n) => if n >= 0 {
            id == IdV::Num(n as u64)
        } else {
            id == IdV::Str(text::int_text(n as int))
        },
        TokV::Ident(w) => id == IdV::Str(w),
        _ => false,
    }
}

/// `FORGET <table>:<id>` forgets that record.
pub proof fn law_forget_names_its_record(
    s: Seq<char>,
    forget: Seq<char>,
    table: Seq<char>,
    t: TokV,
    id: IdV,
    g: spec_fn(NumeralV) -> FormV,
)
    requires
        reads_as(s, seq![TokV::Ident(forget), TokV::Ident(table), TokV::Colon, t]),
        text::lower(forget) == "forget"@,
        names_id(t, id),
    ensures
        parser::parse_text(s, g) == Ok::<Seq<StmtV>, ErrV>(
            seq![StmtV::Forget { id: RidV { table, id } }],
        ),
{
    let toks = seq![TokV::Ident(forget), TokV::Ident(table), TokV::Colon, t];
    let ts = lexemes(s, g);
    lemma_lexemes(s, toks, g);
    lemma_first_words();
    assert(ts[0].tok == toks[0] && ts[1].tok == toks[1] && ts[2].tok == toks[2] && ts[3].tok
        == toks[3]);
    let stmt = StmtV::Forget { id: RidV { table, id } };
    assert(parser::p_statement(ts, 0) == Ok::<(StmtV, int), ErrV>((stmt, 4))) by {
        reveal(parser::p_statement);
    }
    lemma_one_statement(s, toks, g, stmt);
}

// ---------------------------------------------------------------------------------------------
// RELATE
// ---------------------------------------------------------------------------------------------
/// The token spells the value: a string, a number, one of the words `true`, `false` and `null`, or any
/// other word, which stands for itself.
pub open spec fn spells_value(t: TokV, v: ValV, g: spec_fn(NumeralV) -> FormV) -> bool {
    match t {
        TokV::Str(s) => v == ValV::Str(s),
        TokV::Int(n) => v == ValV::Int(n),
        TokV::Float(s) => v == ValV::Float(g(NumeralV::Decimal(s)).double),
        TokV::Ident(w) => if text::lower(w) == "true"@ {
            v == ValV::Bool(true)
        } else if text::lower(w) == "false"@ {
            v == ValV::Bool(false)
        } else if text::lower(w) == "null"@ {
            v == ValV::Null
        } else {
            v == ValV::Str(w)
        },
        _ => false,
    }
}

proof fn lemma_value_words()
    ensures
        text::lower("true"@) == "true"@,
        text::lower("false"@) == "false"@,
        text::lower("null"@) == "null"@,
{
    reveal_strlit("true");
    reveal_strlit("false");
    reveal_strlit("null");
    assert(text::lower("true"@) =~= "true"@);
    assert(text::lower("false"@) =~= "false"@);
    assert(text::lower("null"@) =~= "null"@);
}

/// What one token spells is read as one value.
proof fn lemma_spelled(ts: Seq<LexV>, i: int, v: ValV, s: Seq<char>, g: spec_fn(NumeralV) -> FormV)
    requires
        ts == lexemes(s, g),
        0 <= i < ts.len(),
        spells_value(ts[i].tok, v, g),
    ensures
        parser::p_value(ts, i) == Ok::<(ValV, int), ErrV>((v, i + 1)),
{
    lemma_value_words();
    assert(ts[i].form == parser::token_form(ts[i].tok, g));
}

/// The tokens of `(<table>:<id>)`.
pub open spec fn bracketed(table: Seq<char>, id: TokV) -> Seq<TokV> {
    seq![TokV::LParen, TokV::Ident(table), TokV::Colon, id, TokV::RParen]
}

/// `RELATE (<a>)->:<name>->(<b>)`, the colon before the name or not, relates `a` to `b`, without a
/// weight and without properties.
pub proof fn law_relate_names_its_edge(
    s: Seq<char>,
    relate: Seq<char>,
    from_table: Seq<char>,
    from_tok: TokV,
    from_id: IdV,
    colon: bool,
    name: Seq<char>,
    to_table: Seq<char>,
    to_tok: TokV,
    to_id: IdV,
    g: spec_fn(NumeralV) -> FormV,
)
    requires
        reads_as(
            s,
            seq![TokV::Ident(relate)] + bracketed(from_table, from_tok) + seq![TokV::Arrow] + (
            if colon {
                seq![TokV::Colon]
            } else {
                seq![]
            }) + seq![TokV::Ident(name), TokV::Arrow] + bracketed(to_table, to_tok),
        ),
        text::lower(relate) == "relate"@,
        names_id(from_tok, from_id),
        names_id(to_tok, to_id),
    ensures
        parser::parse_text(s, g) == Ok::<Seq<StmtV>, ErrV>(
            seq![
                StmtV::Relate(
                    EdgeV {
                        from: RidV { table: from_table, id: from_id },
                        name,
                        to: RidV { table: to_table, id: to_id },
                        created_at: 0,
                        weight: None,
                        props: Seq::empty(),
                    },
                ),
            ],
        ),
{
    let toks = seq![TokV::Ident(relate)] + bracketed(from_table, from_tok) + seq![TokV::Arrow] + (
    if colon {
        seq![TokV::Colon]
    } else {
        seq![]
    }) + seq![TokV::Ident(name), TokV::Arrow] + bracketed(to_table, to_tok);
    let ts = lexemes(s, g);
    let n = toks.len() as int;
    lemma_lexemes(s, toks, g);
    lemma_first_words();
    let edge = EdgeV {
        from: RidV { table: from_table, id: from_id },
        name,
        to: RidV { table: to_table, id: to_id },
        created_at: 0,
        weight: None,
        props: Seq::empty(),
    };
    assert(toks.subrange(1, 6) =~= bracketed(from_table, from_tok));
    assert(toks.subrange(n - 5, n) =~= bracketed(to_table, to_tok));
    lemma_relation(ts, toks, from_table, from_tok, colon, name, to_table, to_tok, from_id, to_id);
    let stmt = StmtV::Relate(edge);
    assert(parser::p_relate(ts, 1) == Ok::<(StmtV, int), ErrV>((stmt, n)));
    assert(parser::p_statement(ts, 0) == Ok::<(StmtV, int), ErrV>((stmt, n))) by {
        reveal(parser::p_statement);
    }
    lemma_one_statement(s, toks, g, stmt);
}

/// The parts of a relation, read from its tokens, whatever follows.
proof fn lemma_relation(
    ts: Seq<LexV>,
    toks: Seq<TokV>,
    from_table: Seq<char>,
    from_tok: TokV,
    colon: bool,
    name: Seq<char>,
    to_table: Seq<char>,
    to_tok: TokV,
    from_id: IdV,
    to_id: IdV,
)
    requires
        ts.len() >= toks.len() + 1,
        toks.len() == if colon {
            15nat
        } else {
            14nat
        },
        toks.subrange(1, 6) == bracketed(from_table, from_tok),
        toks[6] is Arrow,
        colon ==> toks[7] is Colon,
        toks[toks.len() - 7] == TokV::Ident(name),
        toks[toks.len() - 6] is Arrow,
        toks.subrange(toks.len() - 5, toks.len() as int) == bracketed(to_table, to_tok),
        forall|k: int| 0 <= k < toks.len() ==> (#[trigger] ts[k]).tok == toks[k],
        names_id(from_tok, from_id),
        names_id(to_tok, to_id),
    ensures
        ts[0].tok == toks[0],
        parser::p_relate(ts, 1) == (if parser::is_word(ts[toks.len() as int].tok, "set"@) {
            match parser::p_set(ts, (toks.len() + 1) as int, None, Seq::empty()) {
                Err(e) => Err::<(StmtV, int), ErrV>(e),
                Ok(((weight, props), j)) => Ok(
                    (
                        StmtV::Relate(
                            EdgeV {
                                from: RidV { table: from_table, id: from_id },
                                name,
                                to: RidV { table: to_table, id: to_id },
                                created_at: 0,
                                weight,
                                props,
                            },
                        ),
                        j,
                    ),
                ),
            }
        } else {
            Ok(
                (
                    StmtV::Relate(
                        EdgeV {
                            from: RidV { table: from_table, id: from_id },
                            name,
                            to: RidV { table: to_table, id: to_id },
                            created_at: 0,
                            weight: None,
                            props: Seq::empty(),
                        },
                    ),
                    toks.len() as int,
                ),
            )
        }),
{
    let n = toks.len() as int;
    let a = toks.subrange(1, 6);
    let b = toks.subrange(n - 5, n);
    assert(a[0] == toks[1] && a[1] == toks[2] && a[2] == toks[3] && a[3] == toks[4] && a[4]
        == toks[5]);
    assert(b[0] == toks[n - 5] && b[1] == toks[n - 4] && b[2] == toks[n - 3] && b[3] == toks[n - 2]
        && b[4] == toks[n - 1]);
    assert(ts[0].tok == toks[0] && ts[1].tok == toks[1] && ts[2].tok == toks[2] && ts[3].tok
        == toks[3] && ts[4].tok == toks[4] && ts[5].tok == toks[5] && ts[6].tok == toks[6]
        && ts[7].tok == toks[7]);
    assert(ts[n - 7].tok == toks[n - 7] && ts[n - 6].tok == toks[n - 6] && ts[n - 5].tok == toks[n
        - 5] && ts[n - 4].tok == toks[n - 4] && ts[n - 3].tok == toks[n - 3] && ts[n - 2].tok
        == toks[n - 2] && ts[n - 1].tok == toks[n - 1]);
    let from = RidV { table: from_table, id: from_id };
    let to = RidV { table: to_table, id: to_id };
    assert(parser::p_record_id(ts, 2) == Ok::<(RidV, int), ErrV>((from, 5)));
    assert(parser::p_record_id(ts, n - 4) == Ok::<(RidV, int), ErrV>((to, n - 1)));
}

/// `RELATE .. SET <field> = <value>` gives the edge that property, `SET weight = <number>` that weight,
/// in the form of a single.
#[verifier::rlimit(40)]
pub proof fn law_relate_sets_properties(
    s: Seq<char>,
    relate: Seq<char>,
    from_table: Seq<char>,
    from_tok: TokV,
    from_id: IdV,
    name: Seq<char>,
    to_table: Seq<char>,
    to_tok: TokV,
    to_id: IdV,
    set: Seq<char>,
    field: Seq<char>,
    value: TokV,
    v: ValV,
    g: spec_fn(NumeralV) -> FormV,
)
    requires
        reads_as(
            s,
            seq![TokV::Ident(relate)] + bracketed(from_table, from_tok) + seq![
                TokV::Arrow,
                TokV::Colon,
                TokV::Ident(name),
                TokV::Arrow,
            ] + bracketed(to_table, to_tok) + seq![
                TokV::Ident(set),
                TokV::Ident(field),
                TokV::Eq,
                value,
            ],
        ),
        text::lower(relate) == "relate"@,
        text::lower(set) == "set"@,
        names_id(from_tok, from_id),
        names_id(to_tok, to_id),
        spells_value(value, v, g),
        text::lower(field) == "weight"@ ==> value is Int || value is Float,
    ensures
        ({
            let single = match value {
                TokV::Int(n) => g(NumeralV::Int(n)).single,
                TokV::Float(x) => g(NumeralV::Decimal(x)).single,
                _ => 0u32,
            };
            parser::parse_text(s, g) == Ok::<Seq<StmtV>, ErrV>(
                seq![
                    StmtV::Relate(
                        EdgeV {
                            from: RidV { table: from_table, id: from_id },
                            name,
                            to: RidV { table: to_table, id: to_id },
                            created_at: 0,
                            weight: if text::lower(field) == "weight"@ {
                                Some(single)
                            } else {
                                None
                            },
                            props: if text::lower(field) == "weight"@ {
                                Seq::empty()
                            } else {
                                seq![(field, v)]
                            },
                        },
                    ),
                ],
            )
        }),
{
    let front = seq![TokV::Ident(relate)] + bracketed(from_table, from_tok) + seq![
        TokV::Arrow,
        TokV::Colon,
        TokV::Ident(name),
        TokV::Arrow,
    ] + bracketed(to_table, to_tok);
    let toks = front + seq![TokV::Ident(set), TokV::Ident(field), TokV::Eq, value];
    let ts = lexemes(s, g);
    lemma_lexemes(s, toks, g);
    lemma_first_words();
    lemma_inner_words();
    assert forall|k: int| 0 <= k < front.len() implies (#[trigger] ts[k]).tok == front[k] by {
        assert(toks[k] == front[k]);
    }
    assert(front.subrange(1, 6) =~= bracketed(from_table, from_tok));
    assert(front.subrange(10, 15) =~= bracketed(to_table, to_tok));
    lemma_relation(ts, front, from_table, from_tok, true, name, to_table, to_tok, from_id, to_id);
    assert(ts[15].tok == toks[15] && ts[16].tok == toks[16] && ts[17].tok == toks[17] && ts[18].tok
        == toks[18]);
    lemma_spelled(ts, 18, v, s, g);
    assert(ts[18].form == parser::token_form(ts[18].tok, g));
    let none = Seq::<(Seq<char>, ValV)>::empty();
    assert(ordmap::put::<String, ValV>(none, field, v) =~= seq![(field, v)]);
    let (weight, props) = if text::lower(field) == "weight"@ {
        (Some(ts[18].form.single), none)
    } else {
        (None, seq![(field, v)])
    };
    assert(parser::p_set(ts, 16, None, none) == Ok::<((Option<u32>, BodyV), int), ErrV>(
        ((weight, props), 19),
    ));
    let stmt = StmtV::Relate(
        EdgeV {
            from: RidV { table: from_table, id: from_id },
            name,
            to: RidV { table: to_table, id: to_id },
            created_at: 0,
            weight,
            props,
        },
    );
    assert(parser::p_relate(ts, 1) == Ok::<(StmtV, int), ErrV>((stmt, 19)));
    assert(parser::p_statement(ts, 0) == Ok::<(StmtV, int), ErrV>((stmt, 19))) by {
        reveal(parser::p_statement);
    }
    lemma_one_statement(s, toks, g, stmt);
}

// ---------------------------------------------------------------------------------------------
// MATCH and CLOSURE
// ---------------------------------------------------------------------------------------------
/// The tokens of a step: the arrow, a colon or none, the name of the edge, and a condition
/// `WHERE <field> = <value>` where there is one.
pub open spec fn step_tokens(
    out: bool,
    colon: bool,
    name: Seq<char>,
    condition: Option<(Seq<char>, Seq<char>, TokV)>,
) -> Seq<TokV> {
    seq![
        if out {
            TokV::Arrow
        } else {
            TokV::LeftArrow
        },
    ] + (if colon {
        seq![TokV::Colon]
    } else {
        seq![]
    }) + seq![TokV::Ident(name)] + (match condition {
        Some((w, field, value)) => seq![TokV::Ident(w), TokV::Ident(field), TokV::Eq, value],
        None => seq![],
    })
}

/// `MATCH (<start>)` and `CLOSURE (<start>)` with one step are read as that path: `->` goes along the
/// edges, `<-` against them; the step asks for edges of its name and, with `WHERE <field> = <value>`,
/// for that value of the property.
pub proof fn law_one_step_paths(
    s: Seq<char>,
    kw: Seq<char>,
    table: Seq<char>,
    t: TokV,
    id: IdV,
    out: bool,
    colon: bool,
    name: Seq<char>,
    condition: Option<(Seq<char>, Seq<char>, TokV)>,
    v: ValV,
    g: spec_fn(NumeralV) -> FormV,
)
    requires
        reads_as(
            s,
            seq![TokV::Ident(kw)] + bracketed(table, t) + step_tokens(out, colon, name, condition),
        ),
        names_id(t, id),
        condition matches Some((w, field, value)) ==> text::lower(w) == "where"@ && spells_value(
            value,
            v,
            g,
        ),
    ensures
        ({
            let path = PathV {
                start: RidV { table, id },
                steps: seq![
                    StepV {
                        direction: if out {
                            MatchDirection::Out
                        } else {
                            MatchDirection::In
                        },
                        name,
                        edge_props: match condition {
                            Some((w, field, value)) => Some(FilV::FieldEquals { field, value: v }),
                            None => None,
                        },
                    },
                ],
            };
            &&& text::lower(kw) == "match"@ ==> parser::parse_text(s, g) == Ok::<Seq<StmtV>, ErrV>(
                seq![StmtV::Match(path)],
            )
            &&& text::lower(kw) == "closure"@ ==> parser::parse_text(s, g) == Ok::<Seq<StmtV>, ErrV>(
                seq![StmtV::Closure(path)],
            )
        }),
{
    let front = seq![TokV::Ident(kw)] + bracketed(table, t);
    let toks = front + step_tokens(out, colon, name, condition);
    let ts = lexemes(s, g);
    let n = toks.len() as int;
    lemma_lexemes(s, toks, g);
    lemma_first_words();
    lemma_inner_words();
    let start = RidV { table, id };
    let direction = if out {
        MatchDirection::Out
    } else {
        MatchDirection::In
    };
    let step = StepV {
        direction,
        name,
        edge_props: match condition {
            Some((w, field, value)) => Some(FilV::FieldEquals { field, value: v }),
            None => None,
        },
    };
    assert(ts[0].tok == toks[0] && ts[1].tok == toks[1] && ts[2].tok == toks[2] && ts[3].tok
        == toks[3] && ts[4].tok == toks[4] && ts[5].tok == toks[5] && ts[6].tok == toks[6]
        && ts[7].tok == toks[7]);
    assert(parser::p_record_id(ts, 2) == Ok::<(RidV, int), ErrV>((start, 5)));
    let b: int = if colon {
        9
    } else {
        8
    };
    assert(ts[b - 1].tok == toks[b - 1]);
    if let Some((w, field, value)) = condition {
        assert(ts[b].tok == toks[b] && ts[b + 1].tok == toks[b + 1] && ts[b + 2].tok == toks[b + 2]
            && ts[b + 3].tok == toks[b + 3]);
        lemma_spelled(ts, b + 3, v, s, g);
    }
    assert(parser::p_step(ts, 7, direction) == Ok::<(StepV, int), ErrV>((step, n)));
    let none = Seq::<StepV>::empty();
    assert(none.push(step) =~= seq![step]);
    assert(parser::p_steps(ts, n, none.push(step)) == Ok::<(Seq<StepV>, int), ErrV>(
        (none.push(step), n),
    ));
    assert(parser::p_steps(ts, 6, none) == Ok::<(Seq<StepV>, int), ErrV>((none.push(step), n)));
    let path = PathV { start, steps: seq![step] };
    if text::lower(kw) == "match"@ {
        assert(parser::p_statement(ts, 0) == Ok::<(StmtV, int), ErrV>((StmtV::Match(path), n))) by {
            reveal(parser::p_statement);
        }
        lemma_one_statement(s, toks, g, StmtV::Match(path));
    }
    if text::lower(kw) == "closure"@ {
        assert(parser::p_statement(ts, 0) == Ok::<(StmtV, int), ErrV>((StmtV::Closure(path), n))) by {
            reveal(parser::p_statement);
        }
        lemma_one_statement(s, toks, g, StmtV::Closure(path));
    }
}

// ---------------------------------------------------------------------------------------------
// INSERT
// ---------------------------------------------------------------------------------------------
/// `INSERT INTO <table>:<id> {<field>: <value>}` inserts a record with that id and that one field,
/// without an embedding. The field is a word or a string.
pub proof fn law_insert_names_its_record(
    s: Seq<char>,
    insert: Seq<char>,
    into: Seq<char>,
    table: Seq<char>,
    t: TokV,
    id: IdV,
    key: TokV,
    field: Seq<char>,
    value: TokV,
    v: ValV,
    g: spec_fn(NumeralV) -> FormV,
)
    requires
        reads_as(
            s,
            seq![
                TokV::Ident(insert),
                TokV::Ident(into),
                TokV::Ident(table),
                TokV::Colon,
                t,
                TokV::LBrace,
                key,
                TokV::Colon,
                value,
                TokV::RBrace,
            ],
        ),
        text::lower(insert) == "insert"@,
        text::lower(into) == "into"@,
        names_id(t, id),
        key == TokV::Ident(field) || key == TokV::Str(field),
        spells_value(value, v, g),
    ensures
        parser::parse_text(s, g) == Ok::<Seq<StmtV>, ErrV>(
            seq![
                StmtV::Insert(
                    RecV {
                        id: RidV { table, id },
                        body: seq![(field, v)],
                        embedding: None,
                        created_at: 0,
                    },
                ),
            ],
        ),
{
    let toks = seq![
        TokV::Ident(insert),
        TokV::Ident(into),
        TokV::Ident(table),
        TokV::Colon,
        t,
        TokV::LBrace,
        key,
        TokV::Colon,
        value,
        TokV::RBrace,
    ];
    let ts = lexemes(s, g);
    lemma_lexemes(s, toks, g);
    lemma_first_words();
    lemma_inner_words();
    lemma_insert_head(ts, toks, table, t, id);
    assert(ts[6].tok == toks[6] && ts[7].tok == toks[7] && ts[8].tok == toks[8] && ts[9].tok
        == toks[9]);
    lemma_spelled(ts, 8, v, s, g);
    let none = Seq::<(Seq<char>, ValV)>::empty();
    let body = seq![(field, v)];
    assert(ordmap::put::<String, ValV>(none, field, v) =~= body);
    assert(parser::p_field(ts, 6, field, none) == Ok::<(BodyV, int), ErrV>((body, 10)));
    assert(parser::p_object(ts, 6, none) == Ok::<(BodyV, int), ErrV>((body, 10)));
    let stmt = StmtV::Insert(
        RecV { id: RidV { table, id }, body, embedding: None, created_at: 0 },
    );
    assert(parser::p_insert(ts, 1) == Ok::<(StmtV, int), ErrV>((stmt, 10)));
    assert(parser::p_statement(ts, 0) == Ok::<(StmtV, int), ErrV>((stmt, 10))) by {
        reveal(parser::p_statement);
    }
    lemma_one_statement(s, toks, g, stmt);
}

proof fn lemma_insert_head(ts: Seq<LexV>, toks: Seq<TokV>, table: Seq<char>, t: TokV, id: IdV)
    requires
        toks.len() >= 6,
        ts.len() > toks.len(),
        forall|k: int| 0 <= k < toks.len() ==> (#[trigger] ts[k]).tok == toks[k],
        parser::is_word(toks[1], "into"@),
        toks[2] == TokV::Ident(table),
        toks[3] is Colon,
        toks[4] == t,
        toks[5] is LBrace,
        names_id(t, id),
    ensures
        ts[0].tok == toks[0],
        parser::p_keyword(ts, 1, "into"@, "INTO"@) == Ok::<int, ErrV>(2),
        parser::p_record_id(ts, 2) == Ok::<(RidV, int), ErrV>((RidV { table, id }, 5)),
        parser::p_mark(ts, 5, TokV::LBrace, "`{` starting record body"@) == Ok::<int, ErrV>(6),
{
    assert(ts[0].tok == toks[0] && ts[1].tok == toks[1] && ts[2].tok == toks[2] && ts[3].tok
        == toks[3] && ts[4].tok == toks[4] && ts[5].tok == toks[5]);
}

/// `INSERT INTO <table>:<id> {} EMBED [<number>, <number>]` inserts a record without fields whose
/// embedding holds those numbers, in their order, as singles.
pub proof fn law_insert_embeds_its_vector(
    s: Seq<char>,
    insert: Seq<char>,
    into: Seq<char>,
    table: Seq<char>,
    t: TokV,
    id: IdV,
    embed: Seq<char>,
    x: TokV,
    y: TokV,
    g: spec_fn(NumeralV) -> FormV,
)
    requires
        reads_as(
            s,
            seq![
                TokV::Ident(insert),
                TokV::Ident(into),
                TokV::Ident(table),
                TokV::Colon,
                t,
                TokV::LBrace,
                TokV::RBrace,
                TokV::Ident(embed),
                TokV::LBracket,
                x,
                TokV::Comma,
                y,
                TokV::RBracket,
            ],
        ),
        text::lower(insert) == "insert"@,
        text::lower(into) == "into"@,
        text::lower(embed) == "embed"@,
        names_id(t, id),
        x is Int || x is Float,
        y is Int || y is Float,
    ensures
        ({
            let a = match x {
                TokV::Int(n) => g(NumeralV::Int(n)).single,
                TokV::Float(d) => g(NumeralV::Decimal(d)).single,
                _ => 0u32,
            };
            let b = match y {
                TokV::Int(n) => g(NumeralV::Int(n)).single,
                TokV::Float(d) => g(NumeralV::Decimal(d)).single,
                _ => 0u32,
            };
            parser::parse_text(s, g) == Ok::<Seq<StmtV>, ErrV>(
                seq![
                    StmtV::Insert(
                        RecV {
                            id: RidV { table, id },
                            body: Seq::empty(),
                            embedding: Some(seq![a, b]),
                            created_at: 0,
                        },
                    ),
                ],
            )
        }),
{
    let toks = seq![
        TokV::Ident(insert),
        TokV::Ident(into),
        TokV::Ident(table),
        TokV::Colon,
        t,
        TokV::LBrace,
        TokV::RBrace,
        TokV::Ident(embed),
        TokV::LBracket,
        x,
        TokV::Comma,
        y,
        TokV::RBracket,
    ];
    let ts = lexemes(s, g);
    lemma_lexemes(s, toks, g);
    lemma_first_words();
    lemma_inner_words();
    lemma_insert_head(ts, toks, table, t, id);
    assert(ts[6].tok == toks[6] && ts[7].tok == toks[7] && ts[8].tok == toks[8] && ts[9].tok
        == toks[9] && ts[10].tok == toks[10] && ts[11].tok == toks[11] && ts[12].tok == toks[12]);
    let none = Seq::<(Seq<char>, ValV)>::empty();
    assert(parser::p_object(ts, 6, none) == Ok::<(BodyV, int), ErrV>((none, 7)));
    assert(ts[9].form == parser::token_form(ts[9].tok, g));
    assert(ts[11].form == parser::token_form(ts[11].tok, g));
    lemma_two_numbers(ts, 8);
    let v = seq![ts[9].form.single, ts[11].form.single];
    let stmt = StmtV::Insert(
        RecV { id: RidV { table, id }, body: none, embedding: Some(v), created_at: 0 },
    );
    assert(parser::p_insert(ts, 1) == Ok::<(StmtV, int), ErrV>((stmt, 13)));
    assert(parser::p_statement(ts, 0) == Ok::<(StmtV, int), ErrV>((stmt, 13))) by {
        reveal(parser::p_statement);
    }
    lemma_one_statement(s, toks, g, stmt);
}

/// A bracket with two numbers is a vector of their singles.
proof fn lemma_two_numbers(ts: Seq<LexV>, i: int)
    requires
        0 <= i,
        i + 5 < ts.len(),
        ts[i].tok is LBracket,
        ts[i + 1].tok is Int || ts[i + 1].tok is Float,
        ts[i + 2].tok is Comma,
        ts[i + 3].tok is Int || ts[i + 3].tok is Float,
        ts[i + 4].tok is RBracket,
    ensures
        parser::p_vector(ts, i) == Ok::<(Seq<u32>, int), ErrV>(
            (seq![ts[i + 1].form.single, ts[i + 3].form.single], i + 5),
        ),
{
    let none = Seq::<u32>::empty();
    let one = none.push(ts[i + 1].form.single);
    let two = one.push(ts[i + 3].form.single);
    assert(two =~= seq![ts[i + 1].form.single, ts[i + 3].form.single]);
    assert(parser::p_numbers(ts, i + 3, one) == Ok::<(Seq<u32>, int), ErrV>((two, i + 5)));
    assert(parser::p_numbers(ts, i + 1, none) == parser::p_numbers(ts, i + 3, one));
}

// ---------------------------------------------------------------------------------------------
// The clauses of SELECT
// ---------------------------------------------------------------------------------------------
/// The tokens of `SELECT * FROM <table>`.
pub open spec fn select_head(select: Seq<char>, from: Seq<char>, table: Seq<char>) -> Seq<TokV> {
    seq![TokV::Ident(select), TokV::Star, TokV::Ident(from), TokV::Ident(table)]
}

/// `SELECT * FROM <table>` with one clause behind it.
proof fn lemma_one_clause(
    s: Seq<char>,
    select: Seq<char>,
    from: Seq<char>,
    table: Seq<char>,
    rest: Seq<TokV>,
    g: spec_fn(NumeralV) -> FormV,
    sel: SelV,
)
    requires
        reads_as(s, select_head(select, from, table) + rest),
        text::lower(select) == "select"@,
        text::lower(from) == "from"@,
        rest.len() > 0,
        parser::p_clause(lexemes(s, g), 4, parser::select_all(table)) == Some(
            Ok::<(SelV, int), ErrV>((sel, (4 + rest.len()) as int)),
        ),
    ensures
        parser::parse_text(s, g) == Ok::<Seq<StmtV>, ErrV>(seq![StmtV::Select(sel)]),
{
    let toks = select_head(select, from, table) + rest;
    let ts = lexemes(s, g);
    let n = toks.len() as int;
    lemma_lexemes(s, toks, g);
    lemma_first_words();
    lemma_inner_words();
    assert(ts[0].tok == toks[0] && ts[1].tok == toks[1] && ts[2].tok == toks[2] && ts[3].tok
        == toks[3]);
    assert(parser::p_fields(ts, 1) == Ok::<int, ErrV>(2));
    assert(parser::p_clause(ts, n, sel) is None) by {
        reveal(parser::p_clause);
    }
    let plain = parser::select_all(table);
    assert(parser::p_clauses(ts, n, sel) == Ok::<(SelV, int), ErrV>((sel, n)));
    assert(parser::p_clauses(ts, 4, plain) == Ok::<(SelV, int), ErrV>((sel, n)));
    assert(parser::p_statement(ts, 0) == Ok::<(StmtV, int), ErrV>((StmtV::Select(sel), n))) by {
        reveal(parser::p_statement);
    }
    lemma_one_statement(s, toks, g, StmtV::Select(sel));
}

/// `SELECT * FROM <table>` selects all of the table.
pub proof fn law_select_without_clauses(
    s: Seq<char>,
    select: Seq<char>,
    from: Seq<char>,
    table: Seq<char>,
    g: spec_fn(NumeralV) -> FormV,
)
    requires
        reads_as(s, select_head(select, from, table)),
        text::lower(select) == "select"@,
        text::lower(from) == "from"@,
    ensures
        parser::parse_text(s, g) == Ok::<Seq<StmtV>, ErrV>(
            seq![
                StmtV::Select(
                    SelV {
                        table,
                        knn: None,
                        filter: None,
                        order: None,
                        limit: None,
                        as_of: None,
                    },
                ),
            ],
        ),
{
    let toks = select_head(select, from, table);
    let ts = lexemes(s, g);
    lemma_lexemes(s, toks, g);
    lemma_first_words();
    lemma_inner_words();
    assert(ts[0].tok == toks[0] && ts[1].tok == toks[1] && ts[2].tok == toks[2] && ts[3].tok
        == toks[3]);
    assert(parser::p_fields(ts, 1) == Ok::<int, ErrV>(2));
    let plain = parser::select_all(table);
    assert(parser::p_clause(ts, 4, plain) is None) by {
        reveal(parser::p_clause);
    }
    assert(parser::p_clauses(ts, 4, plain) == Ok::<(SelV, int), ErrV>((plain, 4)));
    assert(parser::p_statement(ts, 0) == Ok::<(StmtV, int), ErrV>((StmtV::Select(plain), 4))) by {
        reveal(parser::p_statement);
    }
    lemma_one_statement(s, toks, g, StmtV::Select(plain));
}

/// `LIMIT n` limits the selection to `n` rows.
pub proof fn law_limit_clause(
    s: Seq<char>,
    select: Seq<char>,
    from: Seq<char>,
    table: Seq<char>,
    limit: Seq<char>,
    n: i64,
    g: spec_fn(NumeralV) -> FormV,
)
    requires
        reads_as(
            s,
            select_head(select, from, table) + seq![
            TokV::Ident(limit),
            TokV::Int(n),
            ],
        ),
        text::lower(select) == "select"@,
        text::lower(from) == "from"@,
        text::lower(limit) == "limit"@,
        0 <= n,
    ensures
        parser::parse_text(s, g) == Ok::<Seq<StmtV>, ErrV>(
            seq![
                StmtV::Select(
                    SelV { table, knn: None, filter: None, order: None, limit: Some(n as usize), as_of: None },
                ),
            ],
        ),
{
    let rest = seq![
            TokV::Ident(limit),
            TokV::Int(n),
    ];
    let toks = select_head(select, from, table) + rest;
    let ts = lexemes(s, g);
    lemma_lexemes(s, toks, g);
    lemma_inner_words();
    let plain = parser::select_all(table);
    let sel = SelV { table, knn: None, filter: None, order: None, limit: Some(n as usize), as_of: None };
    assert forall|k: int| 0 <= k < rest.len() implies ts[4 + k].tok == #[trigger] rest[k] by {
        assert(toks[4 + k] == rest[k]);
    }
    assert(ts[4].tok == rest[0] && ts[5].tok == rest[1]);
    reveal(parser::p_clause);
    assert(parser::p_clause(ts, 4, plain) == Some(
        Ok::<(SelV, int), ErrV>((sel, toks.len() as int)),
    ));
    lemma_one_clause(s, select, from, table, rest, g, sel);
}

/// `AS OF n` carries the time `n`, negative or not.
pub proof fn law_as_of_clause(
    s: Seq<char>,
    select: Seq<char>,
    from: Seq<char>,
    table: Seq<char>,
    as_word: Seq<char>,
    of: Seq<char>,
    n: i64,
    g: spec_fn(NumeralV) -> FormV,
)
    requires
        reads_as(
            s,
            select_head(select, from, table) + seq![
            TokV::Ident(as_word),
            TokV::Ident(of),
            TokV::Int(n),
            ],
        ),
        text::lower(select) == "select"@,
        text::lower(from) == "from"@,
        text::lower(as_word) == "as"@,
        text::lower(of) == "of"@,
    ensures
        parser::parse_text(s, g) == Ok::<Seq<StmtV>, ErrV>(
            seq![
                StmtV::Select(
                    SelV { table, knn: None, filter: None, order: None, limit: None, as_of: Some(n) },
                ),
            ],
        ),
{
    let rest = seq![
            TokV::Ident(as_word),
            TokV::Ident(of),
            TokV::Int(n),
    ];
    let toks = select_head(select, from, table) + rest;
    let ts = lexemes(s, g);
    lemma_lexemes(s, toks, g);
    lemma_inner_words();
    let plain = parser::select_all(table);
    let sel = SelV { table, knn: None, filter: None, order: None, limit: None, as_of: Some(n) };
    assert forall|k: int| 0 <= k < rest.len() implies ts[4 + k].tok == #[trigger] rest[k] by {
        assert(toks[4 + k] == rest[k]);
    }
    assert(ts[4].tok == rest[0] && ts[5].tok == rest[1] && ts[6].tok == rest[2]);
    reveal(parser::p_clause);
    assert(parser::p_clause(ts, 4, plain) == Some(
        Ok::<(SelV, int), ErrV>((sel, toks.len() as int)),
    ));
    lemma_one_clause(s, select, from, table, rest, g, sel);
}

/// `WHERE <field> = <value>` asks for that value of the field. The field is any word but `vector`,
/// which starts a nearest-neighbour clause.
pub proof fn law_field_condition(
    s: Seq<char>,
    select: Seq<char>,
    from: Seq<char>,
    table: Seq<char>,
    w: Seq<char>,
    field: Seq<char>,
    value: TokV,
    v: ValV,
    g: spec_fn(NumeralV) -> FormV,
)
    requires
        reads_as(
            s,
            select_head(select, from, table) + seq![
            TokV::Ident(w),
            TokV::Ident(field),
            TokV::Eq,
            value,
            ],
        ),
        text::lower(select) == "select"@,
        text::lower(from) == "from"@,
        text::lower(w) == "where"@,
        text::lower(field) != "vector"@,
        spells_value(value, v, g),
    ensures
        parser::parse_text(s, g) == Ok::<Seq<StmtV>, ErrV>(
            seq![
                StmtV::Select(
                    SelV { table, knn: None, filter: Some(FilV::FieldEquals { field, value: v }), order: None, limit: None, as_of: None },
                ),
            ],
        ),
{
    let rest = seq![
            TokV::Ident(w),
            TokV::Ident(field),
            TokV::Eq,
            value,
    ];
    let toks = select_head(select, from, table) + rest;
    let ts = lexemes(s, g);
    lemma_lexemes(s, toks, g);
    lemma_inner_words();
    let plain = parser::select_all(table);
    let sel = SelV { table, knn: None, filter: Some(FilV::FieldEquals { field, value: v }), order: None, limit: None, as_of: None };
    assert forall|k: int| 0 <= k < rest.len() implies ts[4 + k].tok == #[trigger] rest[k] by {
        assert(toks[4 + k] == rest[k]);
    }
    assert(ts[4].tok == rest[0] && ts[5].tok == rest[1] && ts[6].tok == rest[2] && ts[7].tok == rest[3]);
    lemma_spelled(ts, 7, v, s, g);
    reveal(parser::p_where);
    let found: (Option<KnnV>, Option<FilV>) = (None, Some(FilV::FieldEquals { field, value: v }));
    assert(parser::p_where(ts, 5) == Ok::<((Option<KnnV>, Option<FilV>), int), ErrV>((found, 8)));
    reveal(parser::p_clause);
    assert(parser::p_clause(ts, 4, plain) == Some(
        Ok::<(SelV, int), ErrV>((sel, toks.len() as int)),
    ));
    lemma_one_clause(s, select, from, table, rest, g, sel);
}

/// `WHERE embedding IS NOT NULL` asks for records with an embedding.
pub proof fn law_embedding_condition(
    s: Seq<char>,
    select: Seq<char>,
    from: Seq<char>,
    table: Seq<char>,
    w: Seq<char>,
    field: Seq<char>,
    is_word: Seq<char>,
    not: Seq<char>,
    null: Seq<char>,
    g: spec_fn(NumeralV) -> FormV,
)
    requires
        reads_as(
            s,
            select_head(select, from, table) + seq![
            TokV::Ident(w),
            TokV::Ident(field),
            TokV::Ident(is_word),
            TokV::Ident(not),
            TokV::Ident(null),
            ],
        ),
        text::lower(select) == "select"@,
        text::lower(from) == "from"@,
        text::lower(w) == "where"@,
        text::lower(field) == "embedding"@,
        text::lower(is_word) == "is"@,
        text::lower(not) == "not"@,
        text::lower(null) == "null"@,
    ensures
        parser::parse_text(s, g) == Ok::<Seq<StmtV>, ErrV>(
            seq![
                StmtV::Select(
                    SelV { table, knn: None, filter: Some(FilV::HasEmbedding), order: None, limit: None, as_of: None },
                ),
            ],
        ),
{
    let rest = seq![
            TokV::Ident(w),
            TokV::Ident(field),
            TokV::Ident(is_word),
            TokV::Ident(not),
            TokV::Ident(null),
    ];
    let toks = select_head(select, from, table) + rest;
    let ts = lexemes(s, g);
    lemma_lexemes(s, toks, g);
    lemma_inner_words();
    let plain = parser::select_all(table);
    let sel = SelV { table, knn: None, filter: Some(FilV::HasEmbedding), order: None, limit: None, as_of: None };
    assert forall|k: int| 0 <= k < rest.len() implies ts[4 + k].tok == #[trigger] rest[k] by {
        assert(toks[4 + k] == rest[k]);
    }
    assert(ts[4].tok == rest[0] && ts[5].tok == rest[1] && ts[6].tok == rest[2] && ts[7].tok == rest[3] && ts[8].tok == rest[4]);
    reveal(parser::p_where);
    let found: (Option<KnnV>, Option<FilV>) = (None, Some(FilV::HasEmbedding));
    assert(parser::p_where(ts, 5) == Ok::<((Option<KnnV>, Option<FilV>), int), ErrV>((found, 9)));
    reveal(parser::p_clause);
    assert(parser::p_clause(ts, 4, plain) == Some(
        Ok::<(SelV, int), ErrV>((sel, toks.len() as int)),
    ));
    lemma_one_clause(s, select, from, table, rest, g, sel);
}

/// `WHERE ::bm25(<field>, "<query>")` ranks by what the query finds in the field, without a cap.
pub proof fn law_lexical_clause(
    s: Seq<char>,
    select: Seq<char>,
    from: Seq<char>,
    table: Seq<char>,
    w: Seq<char>,
    op: Seq<char>,
    field: Seq<char>,
    query: Seq<char>,
    g: spec_fn(NumeralV) -> FormV,
)
    requires
        reads_as(
            s,
            select_head(select, from, table) + seq![
            TokV::Ident(w),
            TokV::DoubleColon,
            TokV::Ident(op),
            TokV::LParen,
            TokV::Ident(field),
            TokV::Comma,
            TokV::Str(query),
            TokV::RParen,
            ],
        ),
        text::lower(select) == "select"@,
        text::lower(from) == "from"@,
        text::lower(w) == "where"@,
        text::lower(op) == "bm25"@,
    ensures
        parser::parse_text(s, g) == Ok::<Seq<StmtV>, ErrV>(
            seq![
                StmtV::Select(
                    SelV { table, knn: None, filter: Some(FilV::Bm25 { field, query, k: None }), order: None, limit: None, as_of: None },
                ),
            ],
        ),
{
    let rest = seq![
            TokV::Ident(w),
            TokV::DoubleColon,
            TokV::Ident(op),
            TokV::LParen,
            TokV::Ident(field),
            TokV::Comma,
            TokV::Str(query),
            TokV::RParen,
    ];
    let toks = select_head(select, from, table) + rest;
    let ts = lexemes(s, g);
    lemma_lexemes(s, toks, g);
    lemma_inner_words();
    let plain = parser::select_all(table);
    let sel = SelV { table, knn: None, filter: Some(FilV::Bm25 { field, query, k: None }), order: None, limit: None, as_of: None };
    assert forall|k: int| 0 <= k < rest.len() implies ts[4 + k].tok == #[trigger] rest[k] by {
        assert(toks[4 + k] == rest[k]);
    }
    assert(ts[4].tok == rest[0] && ts[5].tok == rest[1] && ts[6].tok == rest[2] && ts[7].tok == rest[3]);
    assert(ts[8].tok == rest[4] && ts[9].tok == rest[5] && ts[10].tok == rest[6] && ts[11].tok == rest[7]);
    reveal(parser::p_where);
    reveal(parser::p_bm25);
    let filter = FilV::Bm25 { field, query, k: None };
    assert(parser::p_value(ts, 10) == Ok::<(ValV, int), ErrV>((ValV::Str(query), 11)));
    assert(parser::p_bm25(ts, 5) == Ok::<(FilV, int), ErrV>((filter, 12)));
    let found: (Option<KnnV>, Option<FilV>) = (None, Some(filter));
    assert(parser::p_where(ts, 5) == Ok::<((Option<KnnV>, Option<FilV>), int), ErrV>((found, 12)));
    reveal(parser::p_clause);
    assert(parser::p_clause(ts, 4, plain) == Some(
        Ok::<(SelV, int), ErrV>((sel, toks.len() as int)),
    ));
    lemma_one_clause(s, select, from, table, rest, g, sel);
}

/// `WHERE ::bm25(<field>, "<query>") AND k = n` ranks so, and keeps `n` rows.
pub proof fn law_lexical_clause_with_k(
    s: Seq<char>,
    select: Seq<char>,
    from: Seq<char>,
    table: Seq<char>,
    w: Seq<char>,
    op: Seq<char>,
    field: Seq<char>,
    query: Seq<char>,
    and: Seq<char>,
    kw: Seq<char>,
    n: i64,
    g: spec_fn(NumeralV) -> FormV,
)
    requires
        reads_as(
            s,
            select_head(select, from, table) + seq![
            TokV::Ident(w),
            TokV::DoubleColon,
            TokV::Ident(op),
            TokV::LParen,
            TokV::Ident(field),
            TokV::Comma,
            TokV::Str(query),
            TokV::RParen,
            TokV::Ident(and),
            TokV::Ident(kw),
            TokV::Eq,
            TokV::Int(n),
            ],
        ),
        text::lower(select) == "select"@,
        text::lower(from) == "from"@,
        text::lower(w) == "where"@,
        text::lower(op) == "bm25"@,
        text::lower(and) == "and"@,
        text::lower(kw) == "k"@,
        0 <= n,
    ensures
        parser::parse_text(s, g) == Ok::<Seq<StmtV>, ErrV>(
            seq![
                StmtV::Select(
                    SelV { table, knn: None, filter: Some(FilV::Bm25 { field, query, k: Some(n as usize) }), order: None, limit: None, as_of: None },
                ),
            ],
        ),
{
    let rest = seq![
            TokV::Ident(w),
            TokV::DoubleColon,
            TokV::Ident(op),
            TokV::LParen,
            TokV::Ident(field),
            TokV::Comma,
            TokV::Str(query),
            TokV::RParen,
            TokV::Ident(and),
            TokV::Ident(kw),
            TokV::Eq,
            TokV::Int(n),
    ];
    let toks = select_head(select, from, table) + rest;
    let ts = lexemes(s, g);
    lemma_lexemes(s, toks, g);
    lemma_inner_words();
    let plain = parser::select_all(table);
    let sel = SelV { table, knn: None, filter: Some(FilV::Bm25 { field, query, k: Some(n as usize) }), order: None, limit: None, as_of: None };
    assert forall|k: int| 0 <= k < rest.len() implies ts[4 + k].tok == #[trigger] rest[k] by {
        assert(toks[4 + k] == rest[k]);
    }
    assert(ts[4].tok == rest[0] && ts[5].tok == rest[1] && ts[6].tok == rest[2] && ts[7].tok == rest[3]);
    assert(ts[8].tok == rest[4] && ts[9].tok == rest[5] && ts[10].tok == rest[6] && ts[11].tok == rest[7]);
    assert(ts[12].tok == rest[8] && ts[13].tok == rest[9] && ts[14].tok == rest[10] && ts[15].tok == rest[11]);
    reveal(parser::p_where);
    reveal(parser::p_bm25);
    let filter = FilV::Bm25 { field, query, k: Some(n as usize) };
    assert(parser::p_value(ts, 10) == Ok::<(ValV, int), ErrV>((ValV::Str(query), 11)));
    assert(parser::p_bm25_cap(ts, 12, field, query) == Ok::<(FilV, int), ErrV>((filter, 16)));
    assert(parser::p_bm25(ts, 5) == Ok::<(FilV, int), ErrV>((filter, 16)));
    let found: (Option<KnnV>, Option<FilV>) = (None, Some(filter));
    assert(parser::p_where(ts, 5) == Ok::<((Option<KnnV>, Option<FilV>), int), ErrV>((found, 16)));
    reveal(parser::p_clause);
    assert(parser::p_clause(ts, 4, plain) == Some(
        Ok::<(SelV, int), ErrV>((sel, toks.len() as int)),
    ));
    lemma_one_clause(s, select, from, table, rest, g, sel);
}

/// `WHERE vector::similarity(embedding, [<number>, <number>]) AND k = n` asks for the `n` records nearest
/// to the vector of those numbers, in their order, as singles.
#[verifier::rlimit(40)]
pub proof fn law_nearest_neighbour_clause(
    s: Seq<char>,
    select: Seq<char>,
    from: Seq<char>,
    table: Seq<char>,
    w: Seq<char>,
    vector: Seq<char>,
    similarity: Seq<char>,
    embedding: Seq<char>,
    x: TokV,
    y: TokV,
    and: Seq<char>,
    kw: Seq<char>,
    n: i64,
    g: spec_fn(NumeralV) -> FormV,
)
    requires
        reads_as(
            s,
            select_head(select, from, table) + seq![
            TokV::Ident(w),
            TokV::Ident(vector),
            TokV::DoubleColon,
            TokV::Ident(similarity),
            TokV::LParen,
            TokV::Ident(embedding),
            TokV::Comma,
            TokV::LBracket,
            x,
            TokV::Comma,
            y,
            TokV::RBracket,
            TokV::RParen,
            TokV::Ident(and),
            TokV::Ident(kw),
            TokV::Eq,
            TokV::Int(n),
            ],
        ),
        text::lower(select) == "select"@,
        text::lower(from) == "from"@,
        text::lower(w) == "where"@,
        text::lower(vector) == "vector"@,
        text::lower(similarity) == "similarity"@,
        text::lower(embedding) == "embedding"@,
        text::lower(and) == "and"@,
        text::lower(kw) == "k"@,
        0 < n <= usize::MAX,
        x is Int || x is Float,
        y is Int || y is Float,
    ensures
        parser::parse_text(s, g) == Ok::<Seq<StmtV>, ErrV>(
            seq![
                StmtV::Select(
                    SelV { table, knn: Some(KnnV { query: seq![match x {
                            TokV::Int(i) => g(NumeralV::Int(i)).single,
                            TokV::Float(d) => g(NumeralV::Decimal(d)).single,
                            _ => 0u32,
                        }, match y {
                            TokV::Int(i) => g(NumeralV::Int(i)).single,
                            TokV::Float(d) => g(NumeralV::Decimal(d)).single,
                            _ => 0u32,
                        }], k: n as usize }), filter: None, order: None, limit: None, as_of: None },
                ),
            ],
        ),
{
    let rest = seq![
            TokV::Ident(w),
            TokV::Ident(vector),
            TokV::DoubleColon,
            TokV::Ident(similarity),
            TokV::LParen,
            TokV::Ident(embedding),
            TokV::Comma,
            TokV::LBracket,
            x,
            TokV::Comma,
            y,
            TokV::RBracket,
            TokV::RParen,
            TokV::Ident(and),
            TokV::Ident(kw),
            TokV::Eq,
            TokV::Int(n),
    ];
    let toks = select_head(select, from, table) + rest;
    let ts = lexemes(s, g);
    lemma_lexemes(s, toks, g);
    lemma_inner_words();
    let plain = parser::select_all(table);
    let sel = SelV { table, knn: Some(KnnV { query: seq![match x {
                            TokV::Int(i) => g(NumeralV::Int(i)).single,
                            TokV::Float(d) => g(NumeralV::Decimal(d)).single,
                            _ => 0u32,
                        }, match y {
                            TokV::Int(i) => g(NumeralV::Int(i)).single,
                            TokV::Float(d) => g(NumeralV::Decimal(d)).single,
                            _ => 0u32,
                        }], k: n as usize }), filter: None, order: None, limit: None, as_of: None };
    assert forall|k: int| 0 <= k < rest.len() implies ts[4 + k].tok == #[trigger] rest[k] by {
        assert(toks[4 + k] == rest[k]);
    }
    assert(ts[4].tok == rest[0] && ts[5].tok == rest[1] && ts[6].tok == rest[2] && ts[7].tok == rest[3]);
    assert(ts[8].tok == rest[4] && ts[9].tok == rest[5] && ts[10].tok == rest[6] && ts[11].tok == rest[7]);
    assert(ts[12].tok == rest[8] && ts[13].tok == rest[9] && ts[14].tok == rest[10] && ts[15].tok == rest[11]);
    assert(ts[16].tok == rest[12] && ts[17].tok == rest[13] && ts[18].tok == rest[14] && ts[19].tok == rest[15] && ts[20].tok == rest[16]);
    assert(ts[12].form == parser::token_form(ts[12].tok, g));
    assert(ts[14].form == parser::token_form(ts[14].tok, g));
    lemma_two_numbers(ts, 11);
    reveal(parser::p_where);
    reveal(parser::p_knn);
    let query = seq![ts[12].form.single, ts[14].form.single];
    let knn = KnnV { query, k: n as usize };
    assert(sel.knn->0.query =~= query);
    assert(parser::p_knn_query(ts, 5) == Ok::<(Seq<u32>, int), ErrV>((query, 17)));
    assert(parser::p_knn(ts, 5) == Ok::<(KnnV, int), ErrV>((knn, 21)));
    let found: (Option<KnnV>, Option<FilV>) = (Some(knn), None);
    assert(parser::p_where(ts, 5) == Ok::<((Option<KnnV>, Option<FilV>), int), ErrV>((found, 21)));
    reveal(parser::p_clause);
    assert(parser::p_clause(ts, 4, plain) == Some(
        Ok::<(SelV, int), ErrV>((sel, toks.len() as int)),
    ));
    lemma_one_clause(s, select, from, table, rest, g, sel);
}

// ---------------------------------------------------------------------------------------------
// Tokens
// ---------------------------------------------------------------------------------------------
/// A text that one token fills is read as that token.
proof fn lemma_one_token(s: Seq<char>, t: TokV)
    requires
        s.len() > 0,
        lexer::skip_blank(s, 0) == 0,
        lexer::token_at(s, 0) == Ok::<(TokV, int), (Seq<char>, int)>((t, s.len() as int)),
        !(t is Eof),
    ensures
        reads_as(s, seq![t]),
{
    let n = s.len() as int;
    assert(lexer::skip_blank(s, n) == n);
    assert(lexer::token_at(s, n) == Ok::<(TokV, int), (Seq<char>, int)>((TokV::Eof, n)));
    let span = lexer::SpanV {
        tok: t,
        line: lexer::clamp(lexer::line_at(s, 0)),
        col: lexer::clamp(lexer::col_at(s, 0)),
    };
    let one = Seq::<lexer::SpanV>::empty().push(span);
    assert(lexer::lex_from(s, n, one) is Ok);
    assert(lexer::lex(s) == lexer::lex_from(s, n, one));
    let spans = lexer::lex(s)->Ok_0;
    assert(spans.len() == 2);
    assert(spans[0] == span);
}

/// Each mark is read as its own token.
pub proof fn law_marks()
    ensures
        reads_as(seq!['('], seq![TokV::LParen]),
        reads_as(seq![')'], seq![TokV::RParen]),
        reads_as(seq!['{'], seq![TokV::LBrace]),
        reads_as(seq!['}'], seq![TokV::RBrace]),
        reads_as(seq!['['], seq![TokV::LBracket]),
        reads_as(seq![']'], seq![TokV::RBracket]),
        reads_as(seq![';'], seq![TokV::Semi]),
        reads_as(seq![','], seq![TokV::Comma]),
        reads_as(seq!['+'], seq![TokV::Plus]),
        reads_as(seq!['*'], seq![TokV::Star]),
        reads_as(seq!['='], seq![TokV::Eq]),
        reads_as(seq!['>'], seq![TokV::Gt]),
        reads_as(seq!['<'], seq![TokV::Lt]),
        reads_as(seq![':'], seq![TokV::Colon]),
        reads_as(seq!['-', '>'], seq![TokV::Arrow]),
        reads_as(seq!['<', '-'], seq![TokV::LeftArrow]),
        reads_as(seq![':', ':'], seq![TokV::DoubleColon]),
{
    lemma_one_token(seq!['('], TokV::LParen);
    lemma_one_token(seq![')'], TokV::RParen);
    lemma_one_token(seq!['{'], TokV::LBrace);
    lemma_one_token(seq!['}'], TokV::RBrace);
    lemma_one_token(seq!['['], TokV::LBracket);
    lemma_one_token(seq![']'], TokV::RBracket);
    lemma_one_token(seq![';'], TokV::Semi);
    lemma_one_token(seq![','], TokV::Comma);
    lemma_one_token(seq!['+'], TokV::Plus);
    lemma_one_token(seq!['*'], TokV::Star);
    lemma_one_token(seq!['='], TokV::Eq);
    lemma_one_token(seq!['>'], TokV::Gt);
    lemma_one_token(seq!['<'], TokV::Lt);
    lemma_one_token(seq![':'], TokV::Colon);
    lemma_one_token(seq!['-', '>'], TokV::Arrow);
    lemma_one_token(seq!['<', '-'], TokV::LeftArrow);
    lemma_one_token(seq![':', ':'], TokV::DoubleColon);
}

/// A word is read as itself, in the case in which it is written: a letter of ASCII, an underscore or
/// anything outside ASCII, and then those and digits.
pub proof fn law_words_are_read_as_they_are(w: Seq<char>)
    requires
        w.len() > 0,
        !('0' <= w[0] <= '9'),
        forall|i: int|
            0 <= i < w.len() ==> 'a' <= #[trigger] w[i] <= 'z' || 'A' <= w[i] <= 'Z' || '0' <= w[i]
                <= '9' || w[i] == '_' || w[i] as int >= 0x80,
    ensures
        reads_as(w, seq![TokV::Ident(w)]),
{
    let n = w.len() as int;
    lemma_word_end(w, 0);
    assert(w.subrange(0, n) =~= w);
    assert('a' <= w[0] <= 'z' || 'A' <= w[0] <= 'Z' || w[0] == '_' || w[0] as int >= 0x80);
    assert(lexer::skip_blank(w, 0) == 0);
    assert(lexer::token_at(w, 0) == Ok::<(TokV, int), (Seq<char>, int)>((TokV::Ident(w), n)));
    lemma_one_token(w, TokV::Ident(w));
}

proof fn lemma_word_end(w: Seq<char>, i: int)
    requires
        0 <= i <= w.len(),
        forall|k: int| i <= k < w.len() ==> lexer::is_word_char(#[trigger] w[k]),
    ensures
        lexer::word_end(w, i) == w.len(),
    decreases w.len() - i,
{
    if i < w.len() {
        assert(lexer::is_word_char(w[i]));
        lemma_word_end(w, i + 1);
    }
}

proof fn lemma_digits_end(s: Seq<char>, i: int, e: int)
    requires
        0 <= i <= e <= s.len(),
        forall|k: int| i <= k < e ==> text::is_digit(#[trigger] s[k]),
        e < s.len() ==> !text::is_digit(s[e]),
    ensures
        lexer::digits_end(s, i) == e,
    decreases e - i,
{
    if i < e {
        assert(text::is_digit(s[i]));
        lemma_digits_end(s, i + 1, e);
    }
}

/// The decimal numeral of an integer is read as that integer, of any sign.
pub proof fn law_numerals_are_read_as_their_value(n: i64)
    ensures
        reads_as(text::int_text(n as int), seq![TokV::Int(n)]),
{
    let s = text::int_text(n as int);
    let m: nat = if n < 0 {
        (-n) as nat
    } else {
        n as nat
    };
    let digits = text::dec_text(m);
    text::lemma_dec_text_value(m);
    assert(digits.len() > 0);
    assert forall|k: int| 0 <= k < digits.len() implies text::is_digit(#[trigger] digits[k]) by {}
    let at: int = if n < 0 {
        1
    } else {
        0
    };
    assert forall|k: int| at <= k < s.len() implies text::is_digit(#[trigger] s[k]) by {
        assert(s[k] == digits[k - at]);
    }
    lemma_digits_end(s, at, s.len() as int);
    assert(s.subrange(at, s.len() as int) =~= digits);
    assert(text::is_digit(s[at]));
    assert(lexer::skip_blank(s, 0) == 0);
    assert(lexer::number_at(s, at, n < 0) == Ok::<(TokV, int), (Seq<char>, int)>(
        (TokV::Int(n), s.len() as int),
    ));
    assert(lexer::token_at(s, 0) == lexer::number_at(s, at, n < 0));
    lemma_one_token(s, TokV::Int(n));
}

/// Digits, a point and digits are read as the decimal number that they write, with the sign where
/// there is one.
pub proof fn law_decimals_are_read_as_they_are(negative: bool, a: Seq<char>, b: Seq<char>)
    requires
        a.len() > 0,
        b.len() > 0,
        forall|k: int| 0 <= k < a.len() ==> '0' <= #[trigger] a[k] <= '9',
        forall|k: int| 0 <= k < b.len() ==> '0' <= #[trigger] b[k] <= '9',
    ensures
        ({
            let s = (if negative {
                seq!['-']
            } else {
                seq![]
            }) + a + seq!['.'] + b;
            reads_as(s, seq![TokV::Float(s)])
        }),
{
    let sign: Seq<char> = if negative {
        seq!['-']
    } else {
        seq![]
    };
    let s = sign + a + seq!['.'] + b;
    let at = sign.len() as int;
    let p = at + a.len();
    assert forall|k: int| at <= k < p implies text::is_digit(#[trigger] s[k]) by {
        assert(s[k] == a[k - at]);
    }
    assert forall|k: int| p < k < s.len() implies text::is_digit(#[trigger] s[k]) by {
        assert(s[k] == b[k - p - 1]);
    }
    assert(s[p] == '.');
    if negative {
        assert(s[0] == '-');
    }
    lemma_decimal(s, at, p);
}

/// A text of digits, a point and digits, from `at` on, with its point at `p`.
proof fn lemma_decimal(s: Seq<char>, at: int, p: int)
    requires
        at == 0 || (at == 1 && s[0] == '-'),
        at < p < s.len() - 1,
        s[p] == '.',
        forall|k: int| at <= k < p ==> text::is_digit(#[trigger] s[k]),
        forall|k: int| p < k < s.len() ==> text::is_digit(#[trigger] s[k]),
    ensures
        reads_as(s, seq![TokV::Float(s)]),
{
    let n = s.len() as int;
    assert(text::is_digit(s[at]));
    assert(text::is_digit(s[p + 1]));
    lemma_digits_end(s, at, p);
    lemma_digits_end(s, p + 1, n);
    let sign: Seq<char> = if at == 1 {
        seq!['-']
    } else {
        Seq::empty()
    };
    assert(sign + s.subrange(at, n) =~= s);
    assert(lexer::skip_blank(s, 0) == 0);
    assert(lexer::number_at(s, at, at == 1) == Ok::<(TokV, int), (Seq<char>, int)>(
        (TokV::Float(s), n),
    ));
    assert(lexer::token_at(s, 0) == lexer::number_at(s, at, at == 1));
    lemma_one_token(s, TokV::Float(s));
}

/// How a character is written inside quotes: a quote, a backslash, a line feed, a tab and a carriage
/// return behind a backslash, anything else as it is.
pub open spec fn escaped(c: char) -> Seq<char> {
    if c == '"' || c == '\'' || c == '\\' {
        seq!['\\', c]
    } else if c == '\n' {
        seq!['\\', 'n']
    } else if c == '\t' {
        seq!['\\', 't']
    } else if c == '\r' {
        seq!['\\', 'r']
    } else {
        seq![c]
    }
}

/// The first `n` characters of a text, as they are written inside quotes.
pub open spec fn escaped_text(t: Seq<char>, n: int) -> Seq<char>
    decreases n,
{
    if n <= 0 {
        Seq::empty()
    } else {
        escaped_text(t, n - 1) + escaped(t[n - 1])
    }
}

/// A text in quotes, of either kind, is read as the string that it writes: every text, with the
/// escapes where they are needed, is read back as it was.
pub proof fn law_strings_are_read_back(t: Seq<char>, quote: char)
    requires
        quote == '"' || quote == '\'',
    ensures
        reads_as(
            seq![quote] + escaped_text(t, t.len() as int) + seq![quote],
            seq![TokV::Str(t)],
        ),
{
    let inner = escaped_text(t, t.len() as int);
    let s = seq![quote] + inner + seq![quote];
    let n = s.len() as int;
    assert forall|k: int| 0 <= k < inner.len() implies s[1 + k] == inner[k] by {}
    lemma_string_from(s, quote, t, t.len() as int);
    assert(t.take(t.len() as int) =~= t);
    assert(s[n - 1] == quote);
    assert(lexer::string_from(s, n - 1, quote, t) == Ok::<(Seq<char>, int), Seq<char>>((t, n)));
    assert(s[0] == quote);
    assert(lexer::skip_blank(s, 0) == 0);
    assert(lexer::token_at(s, 0) == Ok::<(TokV, int), (Seq<char>, int)>((TokV::Str(t), n)));
    lemma_one_token(s, TokV::Str(t));
}

proof fn lemma_string_from(s: Seq<char>, quote: char, t: Seq<char>, n: int)
    requires
        0 <= n <= t.len(),
        quote == '"' || quote == '\'',
        1 + escaped_text(t, n).len() < s.len(),
        forall|k: int|
            0 <= k < escaped_text(t, n).len() ==> s[1 + k] == #[trigger] escaped_text(t, n)[k],
    ensures
        lexer::string_from(s, 1, quote, Seq::empty()) == lexer::string_from(
            s,
            (1 + escaped_text(t, n).len()) as int,
            quote,
            t.take(n),
        ),
    decreases n,
{
    if n > 0 {
        let before = escaped_text(t, n - 1);
        let after = escaped_text(t, n);
        let c = t[n - 1];
        let j = 1 + before.len() as int;
        assert forall|k: int| 0 <= k < before.len() implies s[1 + k] == #[trigger] before[k] by {
            assert(after[k] == before[k]);
        }
        lemma_string_from(s, quote, t, n - 1);
        assert(t.take(n) =~= t.take(n - 1).push(c));
        assert(after[before.len() as int] == escaped(c)[0]);
        assert(s[j] == escaped(c)[0]);
        if escaped(c).len() == 2 {
            assert(after[before.len() as int + 1] == escaped(c)[1]);
            assert(s[j + 1] == escaped(c)[1]);
        }
    } else {
        assert(t.take(0) =~= Seq::<char>::empty());
    }
}

/// Two texts with white space between them are read as the tokens of the first and then those of the
/// second, where the first does not end in a line comment.
pub proof fn law_texts_join(
    a: Seq<char>,
    c: char,
    b: Seq<char>,
    x: Seq<TokV>,
    y: Seq<TokV>,
)
    requires
        c == ' ' || c == '\t' || c == '\n' || c == '\r',
        reads_as(a, x),
        reads_as(b, y),
        !lexer::ends_in_comment(a),
    ensures
        reads_as(a.push(c) + b, x + y),
{
    let none = Seq::<char>::empty();
    lexer::law_joined_texts(a, c, none, b);
    assert(a.push(c) + none + b =~= a.push(c) + b);
    let (u, v) = (lexer::lex(a)->Ok_0, lexer::lex(b)->Ok_0);
    let ts = lexer::lex(a.push(c) + b)->Ok_0;
    let all = u.drop_last() + Seq::<lexer::SpanV>::empty() + v;
    assert(ts.len() == x.len() + y.len() + 1);
    assert forall|k: int| 0 <= k < (x + y).len() implies (#[trigger] ts[k]).tok == (x + y)[k] by {
        assert(ts[k].tok == all[k].tok);
        if k < x.len() {
            assert(all[k] == u[k]);
        } else {
            assert(all[k] == v[k - x.len()]);
        }
    }
    assert(all[(x.len() + y.len()) as int] == v.last());
}

// ---------------------------------------------------------------------------------------------
// Values that hold others
// ---------------------------------------------------------------------------------------------
/// An insertion with one field, once its value is read.
proof fn lemma_one_field(
    s: Seq<char>,
    toks: Seq<TokV>,
    g: spec_fn(NumeralV) -> FormV,
    id: RidV,
    field: Seq<char>,
    v: ValV,
)
    requires
        reads_as(s, toks),
        toks.len() >= 10,
        parser::is_word(toks[0], "insert"@),
        toks[6] == TokV::Ident(field),
        toks[7] is Colon,
        toks.last() is RBrace,
        parser::p_keyword(lexemes(s, g), 1, "into"@, "INTO"@) == Ok::<int, ErrV>(2),
        parser::p_record_id(lexemes(s, g), 2) == Ok::<(RidV, int), ErrV>((id, 5)),
        parser::p_mark(lexemes(s, g), 5, TokV::LBrace, "`{` starting record body"@) == Ok::<int, ErrV>(
            6,
        ),
        parser::p_value(lexemes(s, g), 8) == Ok::<(ValV, int), ErrV>((v, toks.len() - 1)),
    ensures
        parser::parse_text(s, g) == Ok::<Seq<StmtV>, ErrV>(
            seq![
                StmtV::Insert(
                    RecV { id, body: seq![(field, v)], embedding: None, created_at: 0 },
                ),
            ],
        ),
{
    let ts = lexemes(s, g);
    let n = toks.len() as int;
    lemma_lexemes(s, toks, g);
    lemma_first_words();
    lemma_inner_words();
    assert(ts[0].tok == toks[0] && ts[6].tok == toks[6] && ts[7].tok == toks[7] && ts[n - 1].tok
        == toks[n - 1]);
    let none = Seq::<(Seq<char>, ValV)>::empty();
    let body = seq![(field, v)];
    assert(ordmap::put::<String, ValV>(none, field, v) =~= body);
    assert(parser::p_field(ts, 6, field, none) == Ok::<(BodyV, int), ErrV>((body, n)));
    assert(parser::p_object(ts, 6, none) == Ok::<(BodyV, int), ErrV>((body, n)));
    let stmt = StmtV::Insert(RecV { id, body, embedding: None, created_at: 0 });
    assert(parser::p_insert(ts, 1) == Ok::<(StmtV, int), ErrV>((stmt, n)));
    assert(parser::p_statement(ts, 0) == Ok::<(StmtV, int), ErrV>((stmt, n))) by {
        reveal(parser::p_statement);
    }
    lemma_one_statement(s, toks, g, stmt);
}

/// An array of two values is a vector of their singles where both are numbers, else the list of both, in
/// their order.
#[verifier::rlimit(40)]
pub proof fn law_array_values(
    s: Seq<char>,
    insert: Seq<char>,
    into: Seq<char>,
    table: Seq<char>,
    t: TokV,
    id: IdV,
    field: Seq<char>,
    x: TokV,
    u: ValV,
    y: TokV,
    w: ValV,
    g: spec_fn(NumeralV) -> FormV,
)
    requires
        reads_as(
            s,
            seq![
                TokV::Ident(insert),
                TokV::Ident(into),
                TokV::Ident(table),
                TokV::Colon,
                t,
                TokV::LBrace,
                TokV::Ident(field),
                TokV::Colon,
                TokV::LBracket,
                x,
                TokV::Comma,
                y,
                TokV::RBracket,
                TokV::RBrace,
            ],
        ),
        text::lower(insert) == "insert"@,
        text::lower(into) == "into"@,
        names_id(t, id),
        spells_value(x, u, g),
        spells_value(y, w, g),
    ensures
        ({
            let a = match x {
                TokV::Int(n) => g(NumeralV::Int(n)).single,
                TokV::Float(d) => g(NumeralV::Decimal(d)).single,
                _ => 0u32,
            };
            let b = match y {
                TokV::Int(n) => g(NumeralV::Int(n)).single,
                TokV::Float(d) => g(NumeralV::Decimal(d)).single,
                _ => 0u32,
            };
            let v = if (x is Int || x is Float) && (y is Int || y is Float) {
                ValV::Vector(seq![a, b])
            } else {
                ValV::Arr(seq![u, w])
            };
            parser::parse_text(s, g) == Ok::<Seq<StmtV>, ErrV>(
                seq![
                    StmtV::Insert(
                        RecV {
                            id: RidV { table, id },
                            body: seq![(field, v)],
                            embedding: None,
                            created_at: 0,
                        },
                    ),
                ],
            )
        }),
{
    let toks = seq![
        TokV::Ident(insert),
        TokV::Ident(into),
        TokV::Ident(table),
        TokV::Colon,
        t,
        TokV::LBrace,
        TokV::Ident(field),
        TokV::Colon,
        TokV::LBracket,
        x,
        TokV::Comma,
        y,
        TokV::RBracket,
        TokV::RBrace,
    ];
    let ts = lexemes(s, g);
    lemma_lexemes(s, toks, g);
    lemma_first_words();
    lemma_inner_words();
    lemma_insert_head(ts, toks, table, t, id);
    assert(ts[6].tok == toks[6] && ts[7].tok == toks[7] && ts[8].tok == toks[8] && ts[9].tok == toks[9] && ts[10].tok == toks[10] && ts[11].tok == toks[11] && ts[12].tok == toks[12] && ts[13].tok == toks[13]);
    lemma_spelled(ts, 9, u, s, g);
    lemma_spelled(ts, 11, w, s, g);
    assert(ts[9].form == parser::token_form(ts[9].tok, g));
    assert(ts[11].form == parser::token_form(ts[11].tok, g));
    let elems = Seq::<ValV>::empty().push(u).push(w);
    let singles = Seq::<u32>::empty().push(ts[9].form.single).push(ts[11].form.single);
    assert(elems =~= seq![u, w]);
    assert(singles =~= seq![ts[9].form.single, ts[11].form.single]);
    assert(parser::is_number(u) <==> x is Int || x is Float);
    assert(parser::is_number(w) <==> y is Int || y is Float);
    let v = parser::array_value(elems, singles);
    assert(elems[0] == u && elems[1] == w);
    assert(parser::p_array(ts, 11, Seq::empty().push(u), Seq::empty().push(ts[9].form.single)) == Ok::<
        (ValV, int),
        ErrV,
    >((v, 13)));
    assert(parser::p_array(ts, 9, Seq::empty(), Seq::empty()) == Ok::<(ValV, int), ErrV>((v, 13)));
    assert(parser::p_value(ts, 8) == Ok::<(ValV, int), ErrV>((v, 13)));
    lemma_one_field(s, toks, g, RidV { table, id }, field, v);
}

/// An empty array is an empty list.
pub proof fn law_empty_array(
    s: Seq<char>,
    insert: Seq<char>,
    into: Seq<char>,
    table: Seq<char>,
    t: TokV,
    id: IdV,
    field: Seq<char>,
    g: spec_fn(NumeralV) -> FormV,
)
    requires
        reads_as(
            s,
            seq![
                TokV::Ident(insert),
                TokV::Ident(into),
                TokV::Ident(table),
                TokV::Colon,
                t,
                TokV::LBrace,
                TokV::Ident(field),
                TokV::Colon,
                TokV::LBracket,
                TokV::RBracket,
                TokV::RBrace,
            ],
        ),
        text::lower(insert) == "insert"@,
        text::lower(into) == "into"@,
        names_id(t, id),
    ensures
        parser::parse_text(s, g) == Ok::<Seq<StmtV>, ErrV>(
            seq![
                StmtV::Insert(
                    RecV {
                        id: RidV { table, id },
                        body: seq![(field, ValV::Arr(Seq::empty()))],
                        embedding: None,
                        created_at: 0,
                    },
                ),
            ],
        ),
{
    let toks = seq![
        TokV::Ident(insert),
        TokV::Ident(into),
        TokV::Ident(table),
        TokV::Colon,
        t,
        TokV::LBrace,
        TokV::Ident(field),
        TokV::Colon,
        TokV::LBracket,
        TokV::RBracket,
        TokV::RBrace,
    ];
    let ts = lexemes(s, g);
    lemma_lexemes(s, toks, g);
    lemma_first_words();
    lemma_inner_words();
    lemma_insert_head(ts, toks, table, t, id);
    assert(ts[6].tok == toks[6] && ts[7].tok == toks[7] && ts[8].tok == toks[8] && ts[9].tok == toks[9] && ts[10].tok == toks[10]);
    let none = Seq::<ValV>::empty();
    assert(parser::p_array(ts, 9, none, Seq::empty()) == Ok::<(ValV, int), ErrV>((ValV::Arr(none), 10)));
    assert(parser::p_value(ts, 8) == Ok::<(ValV, int), ErrV>((ValV::Arr(none), 10)));
    lemma_one_field(s, toks, g, RidV { table, id }, field, ValV::Arr(none));
}

/// An object inside an object is a document of its fields.
pub proof fn law_object_values(
    s: Seq<char>,
    insert: Seq<char>,
    into: Seq<char>,
    table: Seq<char>,
    t: TokV,
    id: IdV,
    field: Seq<char>,
    inner: Seq<char>,
    x: TokV,
    u: ValV,
    g: spec_fn(NumeralV) -> FormV,
)
    requires
        reads_as(
            s,
            seq![
                TokV::Ident(insert),
                TokV::Ident(into),
                TokV::Ident(table),
                TokV::Colon,
                t,
                TokV::LBrace,
                TokV::Ident(field),
                TokV::Colon,
                TokV::LBrace,
                TokV::Ident(inner),
                TokV::Colon,
                x,
                TokV::RBrace,
                TokV::RBrace,
            ],
        ),
        text::lower(insert) == "insert"@,
        text::lower(into) == "into"@,
        names_id(t, id),
        spells_value(x, u, g),
    ensures
        parser::parse_text(s, g) == Ok::<Seq<StmtV>, ErrV>(
            seq![
                StmtV::Insert(
                    RecV {
                        id: RidV { table, id },
                        body: seq![(field, ValV::Doc(seq![(inner, u)]))],
                        embedding: None,
                        created_at: 0,
                    },
                ),
            ],
        ),
{
    let toks = seq![
        TokV::Ident(insert),
        TokV::Ident(into),
        TokV::Ident(table),
        TokV::Colon,
        t,
        TokV::LBrace,
        TokV::Ident(field),
        TokV::Colon,
        TokV::LBrace,
        TokV::Ident(inner),
        TokV::Colon,
        x,
        TokV::RBrace,
        TokV::RBrace,
    ];
    let ts = lexemes(s, g);
    lemma_lexemes(s, toks, g);
    lemma_first_words();
    lemma_inner_words();
    lemma_insert_head(ts, toks, table, t, id);
    assert(ts[6].tok == toks[6] && ts[7].tok == toks[7] && ts[8].tok == toks[8] && ts[9].tok == toks[9] && ts[10].tok == toks[10] && ts[11].tok == toks[11] && ts[12].tok == toks[12] && ts[13].tok == toks[13]);
    lemma_spelled(ts, 11, u, s, g);
    let none = Seq::<(Seq<char>, ValV)>::empty();
    let doc = seq![(inner, u)];
    assert(ordmap::put::<String, ValV>(none, inner, u) =~= doc);
    assert(parser::p_field(ts, 9, inner, none) == Ok::<(BodyV, int), ErrV>((doc, 13)));
    assert(parser::p_object(ts, 9, none) == Ok::<(BodyV, int), ErrV>((doc, 13)));
    assert(parser::p_value(ts, 8) == Ok::<(ValV, int), ErrV>((ValV::Doc(doc), 13)));
    lemma_one_field(s, toks, g, RidV { table, id }, field, ValV::Doc(doc));
}

/// Two fields are both kept, under their names; of two with one name the later is.
pub proof fn law_two_fields(
    s: Seq<char>,
    insert: Seq<char>,
    into: Seq<char>,
    table: Seq<char>,
    t: TokV,
    id: IdV,
    field: Seq<char>,
    x: TokV,
    u: ValV,
    other: Seq<char>,
    y: TokV,
    w: ValV,
    g: spec_fn(NumeralV) -> FormV,
)
    requires
        reads_as(
            s,
            seq![
                TokV::Ident(insert),
                TokV::Ident(into),
                TokV::Ident(table),
                TokV::Colon,
                t,
                TokV::LBrace,
                TokV::Ident(field),
                TokV::Colon,
                x,
                TokV::Comma,
                TokV::Ident(other),
                TokV::Colon,
                y,
                TokV::RBrace,
            ],
        ),
        text::lower(insert) == "insert"@,
        text::lower(into) == "into"@,
        names_id(t, id),
        spells_value(x, u, g),
        spells_value(y, w, g),
    ensures
        parser::parse_text(s, g) is Ok,
        ({
            let plan = parser::parse_text(s, g)->Ok_0;
            let rec = plan[0]->Insert_0;
            &&& plan.len() == 1
            &&& plan[0] is Insert
            &&& rec.id == (RidV { table, id })
            &&& rec.embedding is None
            &&& ordmap::lookup::<String, ValV>(rec.body, other) == Some(w)
            &&& field != other ==> ordmap::lookup::<String, ValV>(rec.body, field) == Some(u)
            &&& rec.body.len() == (if field == other {
                1nat
            } else {
                2nat
            })
        }),
{
    let toks = seq![
        TokV::Ident(insert),
        TokV::Ident(into),
        TokV::Ident(table),
        TokV::Colon,
        t,
        TokV::LBrace,
        TokV::Ident(field),
        TokV::Colon,
        x,
        TokV::Comma,
        TokV::Ident(other),
        TokV::Colon,
        y,
        TokV::RBrace,
    ];
    let ts = lexemes(s, g);
    lemma_lexemes(s, toks, g);
    lemma_first_words();
    lemma_inner_words();
    lemma_insert_head(ts, toks, table, t, id);
    assert(ts[6].tok == toks[6] && ts[7].tok == toks[7] && ts[8].tok == toks[8] && ts[9].tok == toks[9] && ts[10].tok == toks[10] && ts[11].tok == toks[11] && ts[12].tok == toks[12] && ts[13].tok == toks[13]);
    lemma_spelled(ts, 8, u, s, g);
    lemma_spelled(ts, 12, w, s, g);
    let none = Seq::<(Seq<char>, ValV)>::empty();
    let one = ordmap::put::<String, ValV>(none, field, u);
    let two = ordmap::put::<String, ValV>(one, other, w);
    ordmap::lemma_put_ascending::<String, ValV>(none, field, u);
    ordmap::lemma_put_lookup_same::<String, ValV>(none, field, u);
    ordmap::lemma_put_lookup_same::<String, ValV>(one, other, w);
    if field != other {
        ordmap::lemma_put_lookup_other::<String, ValV>(one, other, w, field);
        ordmap::lemma_put_lookup_other::<String, ValV>(none, field, u, other);
        assert(!ordmap::holds::<String, ValV>(one, other));
    } else {
        assert(ordmap::holds::<String, ValV>(one, other));
    }
    assert(one =~= seq![(field, u)]);
    ordmap::lemma_slot::<String, ValV>(one, other, 0);
    assert(two.len() == if field == other {
        1nat
    } else {
        2nat
    });
    assert(parser::p_field(ts, 10, other, one) == Ok::<(BodyV, int), ErrV>((two, 14)));
    assert(parser::p_object(ts, 10, one) == Ok::<(BodyV, int), ErrV>((two, 14)));
    assert(parser::p_field(ts, 6, field, none) == Ok::<(BodyV, int), ErrV>((two, 14)));
    assert(parser::p_object(ts, 6, none) == Ok::<(BodyV, int), ErrV>((two, 14)));
    let stmt = StmtV::Insert(
        RecV { id: RidV { table, id }, body: two, embedding: None, created_at: 0 },
    );
    assert(parser::p_insert(ts, 1) == Ok::<(StmtV, int), ErrV>((stmt, 14)));
    assert(parser::p_statement(ts, 0) == Ok::<(StmtV, int), ErrV>((stmt, 14))) by {
        reveal(parser::p_statement);
    }
    lemma_one_statement(s, toks, g, stmt);
}

/// A path of two steps is read as both, in their order.
pub proof fn law_two_step_paths(
    s: Seq<char>,
    kw: Seq<char>,
    table: Seq<char>,
    t: TokV,
    id: IdV,
    out: bool,
    name: Seq<char>,
    then_out: bool,
    then_name: Seq<char>,
    g: spec_fn(NumeralV) -> FormV,
)
    requires
        reads_as(
            s,
            seq![TokV::Ident(kw)] + bracketed(table, t) + step_tokens(out, true, name, None)
                + step_tokens(then_out, true, then_name, None),
        ),
        names_id(t, id),
    ensures
        ({
            let path = PathV {
                start: RidV { table, id },
                steps: seq![
                    StepV {
                        direction: if out {
                            MatchDirection::Out
                        } else {
                            MatchDirection::In
                        },
                        name,
                        edge_props: None,
                    },
                    StepV {
                        direction: if then_out {
                            MatchDirection::Out
                        } else {
                            MatchDirection::In
                        },
                        name: then_name,
                        edge_props: None,
                    },
                ],
            };
            &&& text::lower(kw) == "match"@ ==> parser::parse_text(s, g) == Ok::<Seq<StmtV>, ErrV>(
                seq![StmtV::Match(path)],
            )
            &&& text::lower(kw) == "closure"@ ==> parser::parse_text(s, g) == Ok::<Seq<StmtV>, ErrV>(
                seq![StmtV::Closure(path)],
            )
        }),
{
    let toks = seq![TokV::Ident(kw)] + bracketed(table, t) + step_tokens(out, true, name, None)
        + step_tokens(then_out, true, then_name, None);
    let ts = lexemes(s, g);
    assert(toks.len() == 12);
    lemma_lexemes(s, toks, g);
    lemma_first_words();
    lemma_inner_words();
    let start = RidV { table, id };
    let d = if out {
        MatchDirection::Out
    } else {
        MatchDirection::In
    };
    let e = if then_out {
        MatchDirection::Out
    } else {
        MatchDirection::In
    };
    let one = StepV { direction: d, name, edge_props: None };
    let two = StepV { direction: e, name: then_name, edge_props: None };
    assert(ts[0].tok == toks[0] && ts[1].tok == toks[1] && ts[2].tok == toks[2] && ts[3].tok
        == toks[3] && ts[4].tok == toks[4] && ts[5].tok == toks[5] && ts[6].tok == toks[6]
        && ts[7].tok == toks[7] && ts[8].tok == toks[8] && ts[9].tok == toks[9] && ts[10].tok
        == toks[10] && ts[11].tok == toks[11]);
    assert(parser::p_record_id(ts, 2) == Ok::<(RidV, int), ErrV>((start, 5)));
    assert(parser::p_step(ts, 7, d) == Ok::<(StepV, int), ErrV>((one, 9)));
    assert(parser::p_step(ts, 10, e) == Ok::<(StepV, int), ErrV>((two, 12)));
    let none = Seq::<StepV>::empty();
    let all = none.push(one).push(two);
    assert(all =~= seq![one, two]);
    assert(parser::p_steps(ts, 12, all) == Ok::<(Seq<StepV>, int), ErrV>((all, 12)));
    assert(parser::p_steps(ts, 9, none.push(one)) == Ok::<(Seq<StepV>, int), ErrV>((all, 12)));
    assert(parser::p_steps(ts, 6, none) == Ok::<(Seq<StepV>, int), ErrV>((all, 12)));
    let path = PathV { start, steps: seq![one, two] };
    if text::lower(kw) == "match"@ {
        assert(parser::p_statement(ts, 0) == Ok::<(StmtV, int), ErrV>((StmtV::Match(path), 12))) by {
            reveal(parser::p_statement);
        }
        lemma_one_statement(s, toks, g, StmtV::Match(path));
    }
    if text::lower(kw) == "closure"@ {
        assert(parser::p_statement(ts, 0) == Ok::<(StmtV, int), ErrV>((StmtV::Closure(path), 12))) by {
            reveal(parser::p_statement);
        }
        lemma_one_statement(s, toks, g, StmtV::Closure(path));
    }
}

// ---------------------------------------------------------------------------------------------
// What is refused
// ---------------------------------------------------------------------------------------------
/// A text whose first statement cannot be read cannot be read.
proof fn lemma_refused(s: Seq<char>, toks: Seq<TokV>, g: spec_fn(NumeralV) -> FormV)
    requires
        reads_as(s, toks),
        toks.len() > 0,
        !(toks[0] is Semi),
        !(toks[0] is Eof),
        parser::p_statement(lexemes(s, g), 0) is Err,
    ensures
        parser::parse_text(s, g) is Err,
        parser::parse_one(s, g) is Err,
{
    lemma_lexemes(s, toks, g);
    let ts = lexemes(s, g);
    assert(ts[0].tok == toks[0]);
    assert(parser::p_program(ts, 0, Seq::empty()) is Err);
}

/// A text that starts with anything but the first word of a statement is refused.
pub proof fn law_unknown_statements_are_refused(
    s: Seq<char>,
    first: TokV,
    rest: Seq<TokV>,
    g: spec_fn(NumeralV) -> FormV,
)
    requires
        reads_as(s, seq![first] + rest),
        !(first is Semi),
        !(first is Eof),
        first matches TokV::Ident(w) ==> text::lower(w) != "create"@ && text::lower(w) != "insert"@
            && text::lower(w) != "relate"@ && text::lower(w) != "match"@ && text::lower(w)
            != "closure"@ && text::lower(w) != "select"@ && text::lower(w) != "forget"@,
    ensures
        parser::parse_text(s, g) is Err,
{
    let toks = seq![first] + rest;
    let ts = lexemes(s, g);
    lemma_lexemes(s, toks, g);
    lemma_first_words();
    assert(ts[0].tok == toks[0]);
    assert(parser::p_statement(ts, 0) is Err) by {
        reveal(parser::p_statement);
    }
    lemma_refused(s, toks, g);
}

/// A dimension must be positive, a limit must not be negative, and a path must have a step.
pub proof fn law_numbers_out_of_range_are_refused(
    s: Seq<char>,
    kw: Seq<char>,
    tab: Seq<char>,
    table: Seq<char>,
    vector: Seq<char>,
    element: Seq<char>,
    limit: Seq<char>,
    t: TokV,
    n: i64,
    g: spec_fn(NumeralV) -> FormV,
)
    requires
        n < 0,
        text::lower(vector) == "vector"@,
        text::lower(element) == "f32"@,
        text::lower(limit) == "limit"@,
    ensures
        reads_as(
            s,
            seq![
                TokV::Ident(kw),
                TokV::Ident(tab),
                TokV::Ident(table),
                TokV::Ident(vector),
                TokV::Lt,
                TokV::Ident(element),
                TokV::Comma,
                TokV::Int(n),
                TokV::Gt,
            ],
        ) && text::lower(kw) == "create"@ ==> parser::parse_text(s, g) is Err,
        reads_as(
            s,
            seq![
                TokV::Ident(kw),
                TokV::Ident(tab),
                TokV::Ident(table),
                TokV::Ident(vector),
                TokV::Lt,
                TokV::Ident(element),
                TokV::Comma,
                TokV::Int(0),
                TokV::Gt,
            ],
        ) && text::lower(kw) == "create"@ ==> parser::parse_text(s, g) is Err,
        reads_as(
            s,
            seq![
                TokV::Ident(kw),
                TokV::Star,
                TokV::Ident(tab),
                TokV::Ident(table),
                TokV::Ident(limit),
                TokV::Int(n),
            ],
        ) && text::lower(kw) == "select"@ ==> parser::parse_text(s, g) is Err,
        reads_as(s, seq![TokV::Ident(kw)] + bracketed(table, t)) && (text::lower(kw) == "match"@
            || text::lower(kw) == "closure"@) ==> parser::parse_text(s, g) is Err,
{
    let ts = lexemes(s, g);
    lemma_first_words();
    lemma_inner_words();
    if text::lower(kw) == "create"@ && reads_as(
        s,
        seq![
            TokV::Ident(kw),
            TokV::Ident(tab),
            TokV::Ident(table),
            TokV::Ident(vector),
            TokV::Lt,
            TokV::Ident(element),
            TokV::Comma,
            TokV::Int(n),
            TokV::Gt,
        ],
    ) {
        lemma_no_dimension(s, kw, tab, table, vector, element, n, g);
    }
    if text::lower(kw) == "create"@ && reads_as(
        s,
        seq![
            TokV::Ident(kw),
            TokV::Ident(tab),
            TokV::Ident(table),
            TokV::Ident(vector),
            TokV::Lt,
            TokV::Ident(element),
            TokV::Comma,
            TokV::Int(0),
            TokV::Gt,
        ],
    ) {
        lemma_no_dimension(s, kw, tab, table, vector, element, 0, g);
    }
    let limited = seq![
        TokV::Ident(kw),
        TokV::Star,
        TokV::Ident(tab),
        TokV::Ident(table),
        TokV::Ident(limit),
        TokV::Int(n),
    ];
    if reads_as(s, limited) && text::lower(kw) == "select"@ {
        lemma_lexemes(s, limited, g);
        assert(ts[0].tok == limited[0] && ts[1].tok == limited[1] && ts[2].tok == limited[2]
            && ts[3].tok == limited[3] && ts[4].tok == limited[4] && ts[5].tok == limited[5]);
        assert(parser::p_fields(ts, 1) == Ok::<int, ErrV>(2));
        let plain = parser::select_all(table);
        assert(parser::p_clause(ts, 4, plain) is Some && parser::p_clause(ts, 4, plain)->0 is Err) by {
            reveal(parser::p_clause);
        }
        assert(parser::p_clauses(ts, 4, plain) is Err);
        assert(parser::p_statement(ts, 0) is Err) by {
            reveal(parser::p_statement);
        }
        lemma_refused(s, limited, g);
    }
    let bare = seq![TokV::Ident(kw)] + bracketed(table, t);
    if reads_as(s, bare) && (text::lower(kw) == "match"@ || text::lower(kw) == "closure"@) {
        lemma_lexemes(s, bare, g);
        assert(ts[0].tok == bare[0] && ts[1].tok == bare[1] && ts[2].tok == bare[2] && ts[3].tok
            == bare[3] && ts[4].tok == bare[4] && ts[5].tok == bare[5]);
        let none = Seq::<StepV>::empty();
        assert(parser::p_steps(ts, 6, none) == Ok::<(Seq<StepV>, int), ErrV>((none, 6)));
        assert(parser::p_statement(ts, 0) is Err) by {
            reveal(parser::p_statement);
        }
        lemma_refused(s, bare, g);
    }
}

proof fn lemma_no_dimension(
    s: Seq<char>,
    kw: Seq<char>,
    tab: Seq<char>,
    table: Seq<char>,
    vector: Seq<char>,
    element: Seq<char>,
    m: i64,
    g: spec_fn(NumeralV) -> FormV,
)
    requires
        m <= 0,
        text::lower(kw) == "create"@,
        text::lower(vector) == "vector"@,
        text::lower(element) == "f32"@,
        reads_as(
            s,
            seq![
                TokV::Ident(kw),
                TokV::Ident(tab),
                TokV::Ident(table),
                TokV::Ident(vector),
                TokV::Lt,
                TokV::Ident(element),
                TokV::Comma,
                TokV::Int(m),
                TokV::Gt,
            ],
        ),
    ensures
        parser::parse_text(s, g) is Err,
{
    let toks = seq![
        TokV::Ident(kw),
        TokV::Ident(tab),
        TokV::Ident(table),
        TokV::Ident(vector),
        TokV::Lt,
        TokV::Ident(element),
        TokV::Comma,
        TokV::Int(m),
        TokV::Gt,
    ];
    let ts = lexemes(s, g);
    lemma_first_words();
    lemma_inner_words();
    lemma_lexemes(s, toks, g);
    assert(ts[0].tok == toks[0] && ts[1].tok == toks[1] && ts[2].tok == toks[2] && ts[3].tok
        == toks[3] && ts[4].tok == toks[4] && ts[5].tok == toks[5] && ts[6].tok == toks[6]
        && ts[7].tok == toks[7]);
    assert(parser::p_dim(ts, 4) is Err);
    assert(parser::p_statement(ts, 0) is Err) by {
        reveal(parser::p_statement);
    }
    lemma_refused(s, toks, g);
}

/// A lexical and a nearest-neighbour condition may stand together, the lexical one first.
#[verifier::rlimit(40)]
pub proof fn law_lexical_then_nearest(
    s: Seq<char>,
    select: Seq<char>,
    from: Seq<char>,
    table: Seq<char>,
    w: Seq<char>,
    op: Seq<char>,
    field: Seq<char>,
    query: Seq<char>,
    and: Seq<char>,
    vector: Seq<char>,
    similarity: Seq<char>,
    embedding: Seq<char>,
    x: TokV,
    y: TokV,
    kw: Seq<char>,
    n: i64,
    g: spec_fn(NumeralV) -> FormV,
)
    requires
        reads_as(
            s,
            select_head(select, from, table) + seq![
            TokV::Ident(w),
            TokV::DoubleColon,
            TokV::Ident(op),
            TokV::LParen,
            TokV::Ident(field),
            TokV::Comma,
            TokV::Str(query),
            TokV::RParen,
            TokV::Ident(and),
            TokV::Ident(vector),
            TokV::DoubleColon,
            TokV::Ident(similarity),
            TokV::LParen,
            TokV::Ident(embedding),
            TokV::Comma,
            TokV::LBracket,
            x,
            TokV::Comma,
            y,
            TokV::RBracket,
            TokV::RParen,
            TokV::Ident(and),
            TokV::Ident(kw),
            TokV::Eq,
            TokV::Int(n),
            ],
        ),
        text::lower(select) == "select"@,
        text::lower(from) == "from"@,
        text::lower(w) == "where"@,
        text::lower(op) == "bm25"@,
        text::lower(vector) == "vector"@,
        text::lower(similarity) == "similarity"@,
        text::lower(embedding) == "embedding"@,
        text::lower(and) == "and"@,
        text::lower(kw) == "k"@,
        0 < n <= usize::MAX,
        x is Int || x is Float,
        y is Int || y is Float,
    ensures
        parser::parse_text(s, g) == Ok::<Seq<StmtV>, ErrV>(
            seq![
                StmtV::Select(
                    SelV { table, knn: Some(KnnV { query: seq![match x {
                            TokV::Int(i) => g(NumeralV::Int(i)).single,
                            TokV::Float(d) => g(NumeralV::Decimal(d)).single,
                            _ => 0u32,
                        }, match y {
                            TokV::Int(i) => g(NumeralV::Int(i)).single,
                            TokV::Float(d) => g(NumeralV::Decimal(d)).single,
                            _ => 0u32,
                        }], k: n as usize }), filter: Some(FilV::Bm25 { field, query, k: None }), order: None, limit: None, as_of: None },
                ),
            ],
        ),
{
    let rest = seq![
            TokV::Ident(w),
            TokV::DoubleColon,
            TokV::Ident(op),
            TokV::LParen,
            TokV::Ident(field),
            TokV::Comma,
            TokV::Str(query),
            TokV::RParen,
            TokV::Ident(and),
            TokV::Ident(vector),
            TokV::DoubleColon,
            TokV::Ident(similarity),
            TokV::LParen,
            TokV::Ident(embedding),
            TokV::Comma,
            TokV::LBracket,
            x,
            TokV::Comma,
            y,
            TokV::RBracket,
            TokV::RParen,
            TokV::Ident(and),
            TokV::Ident(kw),
            TokV::Eq,
            TokV::Int(n),
    ];
    let toks = select_head(select, from, table) + rest;
    let ts = lexemes(s, g);
    lemma_lexemes(s, toks, g);
    lemma_inner_words();
    let plain = parser::select_all(table);
    let sel = SelV { table, knn: Some(KnnV { query: seq![match x {
                            TokV::Int(i) => g(NumeralV::Int(i)).single,
                            TokV::Float(d) => g(NumeralV::Decimal(d)).single,
                            _ => 0u32,
                        }, match y {
                            TokV::Int(i) => g(NumeralV::Int(i)).single,
                            TokV::Float(d) => g(NumeralV::Decimal(d)).single,
                            _ => 0u32,
                        }], k: n as usize }), filter: Some(FilV::Bm25 { field, query, k: None }), order: None, limit: None, as_of: None };
    assert forall|k: int| 0 <= k < rest.len() implies ts[4 + k].tok == #[trigger] rest[k] by {
        assert(toks[4 + k] == rest[k]);
    }
    assert(ts[4].tok == rest[0] && ts[5].tok == rest[1] && ts[6].tok == rest[2] && ts[7].tok == rest[3] && ts[8].tok == rest[4]);
    assert(ts[9].tok == rest[5] && ts[10].tok == rest[6] && ts[11].tok == rest[7] && ts[12].tok == rest[8] && ts[13].tok == rest[9]);
    assert(ts[14].tok == rest[10] && ts[15].tok == rest[11] && ts[16].tok == rest[12] && ts[17].tok == rest[13] && ts[18].tok == rest[14]);
    assert(ts[19].tok == rest[15] && ts[20].tok == rest[16] && ts[21].tok == rest[17] && ts[22].tok == rest[18] && ts[23].tok == rest[19]);
    assert(ts[24].tok == rest[20] && ts[25].tok == rest[21] && ts[26].tok == rest[22] && ts[27].tok == rest[23] && ts[28].tok == rest[24]);
    reveal_strlit("k");
    reveal_strlit("vector");
    assert("k"@.len() == 1 && "vector"@.len() == 6);
    assert(ts[20].form == parser::token_form(ts[20].tok, g));
    assert(ts[22].form == parser::token_form(ts[22].tok, g));
    lemma_two_numbers(ts, 19);
    reveal(parser::p_where);
    reveal(parser::p_knn);
    reveal(parser::p_bm25);
    let filter = FilV::Bm25 { field, query, k: None };
    assert(parser::p_value(ts, 10) == Ok::<(ValV, int), ErrV>((ValV::Str(query), 11)));
    assert(parser::p_bm25_cap(ts, 12, field, query) == Ok::<(FilV, int), ErrV>((filter, 12)));
    assert(parser::p_bm25(ts, 5) == Ok::<(FilV, int), ErrV>((filter, 12)));
    let target = seq![ts[20].form.single, ts[22].form.single];
    let knn = KnnV { query: target, k: n as usize };
    assert(sel.knn->0.query =~= target);
    assert(parser::p_knn_query(ts, 13) == Ok::<(Seq<u32>, int), ErrV>((target, 25)));
    assert(parser::p_knn(ts, 13) == Ok::<(KnnV, int), ErrV>((knn, 29)));
    let found: (Option<KnnV>, Option<FilV>) = (Some(knn), Some(filter));
    assert(parser::p_where(ts, 5) == Ok::<((Option<KnnV>, Option<FilV>), int), ErrV>((found, 29)));
    reveal(parser::p_clause);
    assert(parser::p_clause(ts, 4, plain) == Some(
        Ok::<(SelV, int), ErrV>((sel, toks.len() as int)),
    ));
    lemma_one_clause(s, select, from, table, rest, g, sel);
}

/// A lexical and a nearest-neighbour condition may stand together, the nearest-neighbour one first.
#[verifier::rlimit(40)]
pub proof fn law_nearest_then_lexical(
    s: Seq<char>,
    select: Seq<char>,
    from: Seq<char>,
    table: Seq<char>,
    w: Seq<char>,
    op: Seq<char>,
    field: Seq<char>,
    query: Seq<char>,
    and: Seq<char>,
    vector: Seq<char>,
    similarity: Seq<char>,
    embedding: Seq<char>,
    x: TokV,
    y: TokV,
    kw: Seq<char>,
    n: i64,
    g: spec_fn(NumeralV) -> FormV,
)
    requires
        reads_as(
            s,
            select_head(select, from, table) + seq![
            TokV::Ident(w),
            TokV::Ident(vector),
            TokV::DoubleColon,
            TokV::Ident(similarity),
            TokV::LParen,
            TokV::Ident(embedding),
            TokV::Comma,
            TokV::LBracket,
            x,
            TokV::Comma,
            y,
            TokV::RBracket,
            TokV::RParen,
            TokV::Ident(and),
            TokV::Ident(kw),
            TokV::Eq,
            TokV::Int(n),
            TokV::Ident(and),
            TokV::DoubleColon,
            TokV::Ident(op),
            TokV::LParen,
            TokV::Ident(field),
            TokV::Comma,
            TokV::Str(query),
            TokV::RParen,
            ],
        ),
        text::lower(select) == "select"@,
        text::lower(from) == "from"@,
        text::lower(w) == "where"@,
        text::lower(op) == "bm25"@,
        text::lower(vector) == "vector"@,
        text::lower(similarity) == "similarity"@,
        text::lower(embedding) == "embedding"@,
        text::lower(and) == "and"@,
        text::lower(kw) == "k"@,
        0 < n <= usize::MAX,
        x is Int || x is Float,
        y is Int || y is Float,
    ensures
        parser::parse_text(s, g) == Ok::<Seq<StmtV>, ErrV>(
            seq![
                StmtV::Select(
                    SelV { table, knn: Some(KnnV { query: seq![match x {
                            TokV::Int(i) => g(NumeralV::Int(i)).single,
                            TokV::Float(d) => g(NumeralV::Decimal(d)).single,
                            _ => 0u32,
                        }, match y {
                            TokV::Int(i) => g(NumeralV::Int(i)).single,
                            TokV::Float(d) => g(NumeralV::Decimal(d)).single,
                            _ => 0u32,
                        }], k: n as usize }), filter: Some(FilV::Bm25 { field, query, k: None }), order: None, limit: None, as_of: None },
                ),
            ],
        ),
{
    let rest = seq![
            TokV::Ident(w),
            TokV::Ident(vector),
            TokV::DoubleColon,
            TokV::Ident(similarity),
            TokV::LParen,
            TokV::Ident(embedding),
            TokV::Comma,
            TokV::LBracket,
            x,
            TokV::Comma,
            y,
            TokV::RBracket,
            TokV::RParen,
            TokV::Ident(and),
            TokV::Ident(kw),
            TokV::Eq,
            TokV::Int(n),
            TokV::Ident(and),
            TokV::DoubleColon,
            TokV::Ident(op),
            TokV::LParen,
            TokV::Ident(field),
            TokV::Comma,
            TokV::Str(query),
            TokV::RParen,
    ];
    let toks = select_head(select, from, table) + rest;
    let ts = lexemes(s, g);
    lemma_lexemes(s, toks, g);
    lemma_inner_words();
    let plain = parser::select_all(table);
    let sel = SelV { table, knn: Some(KnnV { query: seq![match x {
                            TokV::Int(i) => g(NumeralV::Int(i)).single,
                            TokV::Float(d) => g(NumeralV::Decimal(d)).single,
                            _ => 0u32,
                        }, match y {
                            TokV::Int(i) => g(NumeralV::Int(i)).single,
                            TokV::Float(d) => g(NumeralV::Decimal(d)).single,
                            _ => 0u32,
                        }], k: n as usize }), filter: Some(FilV::Bm25 { field, query, k: None }), order: None, limit: None, as_of: None };
    assert forall|k: int| 0 <= k < rest.len() implies ts[4 + k].tok == #[trigger] rest[k] by {
        assert(toks[4 + k] == rest[k]);
    }
    assert(ts[4].tok == rest[0] && ts[5].tok == rest[1] && ts[6].tok == rest[2] && ts[7].tok == rest[3] && ts[8].tok == rest[4]);
    assert(ts[9].tok == rest[5] && ts[10].tok == rest[6] && ts[11].tok == rest[7] && ts[12].tok == rest[8] && ts[13].tok == rest[9]);
    assert(ts[14].tok == rest[10] && ts[15].tok == rest[11] && ts[16].tok == rest[12] && ts[17].tok == rest[13] && ts[18].tok == rest[14]);
    assert(ts[19].tok == rest[15] && ts[20].tok == rest[16] && ts[21].tok == rest[17] && ts[22].tok == rest[18] && ts[23].tok == rest[19]);
    assert(ts[24].tok == rest[20] && ts[25].tok == rest[21] && ts[26].tok == rest[22] && ts[27].tok == rest[23] && ts[28].tok == rest[24]);
    assert(ts[12].form == parser::token_form(ts[12].tok, g));
    assert(ts[14].form == parser::token_form(ts[14].tok, g));
    lemma_two_numbers(ts, 11);
    reveal(parser::p_where);
    reveal(parser::p_knn);
    reveal(parser::p_bm25);
    let filter = FilV::Bm25 { field, query, k: None };
    let target = seq![ts[12].form.single, ts[14].form.single];
    let knn = KnnV { query: target, k: n as usize };
    assert(sel.knn->0.query =~= target);
    assert(parser::p_knn_query(ts, 5) == Ok::<(Seq<u32>, int), ErrV>((target, 17)));
    assert(parser::p_knn(ts, 5) == Ok::<(KnnV, int), ErrV>((knn, 21)));
    assert(parser::p_value(ts, 27) == Ok::<(ValV, int), ErrV>((ValV::Str(query), 28)));
    assert(parser::p_bm25_cap(ts, 29, field, query) == Ok::<(FilV, int), ErrV>((filter, 29)));
    assert(parser::p_bm25(ts, 22) == Ok::<(FilV, int), ErrV>((filter, 29)));
    let found: (Option<KnnV>, Option<FilV>) = (Some(knn), Some(filter));
    assert(parser::p_where(ts, 5) == Ok::<((Option<KnnV>, Option<FilV>), int), ErrV>((found, 29)));
    reveal(parser::p_clause);
    assert(parser::p_clause(ts, 4, plain) == Some(
        Ok::<(SelV, int), ErrV>((sel, toks.len() as int)),
    ));
    lemma_one_clause(s, select, from, table, rest, g, sel);
}

/// Which fields a `SELECT` names makes no difference: a list of names selects as `*` does.
pub proof fn law_field_names_make_no_difference(
    s: Seq<char>,
    select: Seq<char>,
    a: Seq<char>,
    b: Seq<char>,
    from: Seq<char>,
    table: Seq<char>,
    g: spec_fn(NumeralV) -> FormV,
)
    requires
        reads_as(
            s,
            seq![
                TokV::Ident(select),
                TokV::Ident(a),
                TokV::Comma,
                TokV::Ident(b),
                TokV::Ident(from),
                TokV::Ident(table),
            ],
        ),
        text::lower(select) == "select"@,
        text::lower(from) == "from"@,
    ensures
        parser::parse_text(s, g) == Ok::<Seq<StmtV>, ErrV>(
            seq![
                StmtV::Select(
                    SelV {
                        table,
                        knn: None,
                        filter: None,
                        order: None,
                        limit: None,
                        as_of: None,
                    },
                ),
            ],
        ),
{
    let toks = seq![
        TokV::Ident(select),
        TokV::Ident(a),
        TokV::Comma,
        TokV::Ident(b),
        TokV::Ident(from),
        TokV::Ident(table),
    ];
    let ts = lexemes(s, g);
    lemma_lexemes(s, toks, g);
    lemma_first_words();
    lemma_inner_words();
    assert(ts[0].tok == toks[0] && ts[1].tok == toks[1] && ts[2].tok == toks[2] && ts[3].tok
        == toks[3] && ts[4].tok == toks[4] && ts[5].tok == toks[5]);
    assert(parser::p_fields(ts, 3) == Ok::<int, ErrV>(4));
    assert(parser::p_fields(ts, 1) == Ok::<int, ErrV>(4));
    let plain = parser::select_all(table);
    assert(parser::p_clause(ts, 6, plain) is None) by {
        reveal(parser::p_clause);
    }
    assert(parser::p_clauses(ts, 6, plain) == Ok::<(SelV, int), ErrV>((plain, 6)));
    assert(parser::p_statement(ts, 0) == Ok::<(StmtV, int), ErrV>((StmtV::Select(plain), 6))) by {
        reveal(parser::p_statement);
    }
    lemma_one_statement(s, toks, g, StmtV::Select(plain));
}

// ---------------------------------------------------------------------------------------------
// Positions
// ---------------------------------------------------------------------------------------------
/// The line of a position is 1 more than the number of line feeds before it.
pub proof fn law_lines_count_line_feeds(s: Seq<char>, i: int)
    requires
        0 <= i <= s.len(),
    ensures
        lexer::line_at(s, i) == 1 + s.take(i).filter(|c: char| c == '\n').len(),
    decreases i,
{
    reveal(Seq::filter);
    if i > 0 {
        law_lines_count_line_feeds(s, i - 1);
        assert(s.take(i).drop_last() =~= s.take(i - 1));
        assert(s.take(i).last() == s[i - 1]);
    } else {
        assert(s.take(0) =~= Seq::<char>::empty());
    }
}

/// The column of a position is 1 more than the bytes between the start of its line, at `j`, and it.
pub proof fn law_columns_count_bytes(s: Seq<char>, j: int, i: int)
    requires
        0 <= j <= i <= s.len(),
        j == 0 || s[j - 1] == '\n',
        forall|k: int| j <= k < i ==> s[k] != '\n',
    ensures
        lexer::col_at(s, i) == 1 + lexer::bytes(s, i) - lexer::bytes(s, j),
    decreases i - j,
{
    if j < i {
        law_columns_count_bytes(s, j, i - 1);
        assert(s[i - 1] != '\n');
    }
}

/// How many bytes a character takes: one in ASCII, and two, three or four from there on.
pub proof fn law_bytes_of_a_character(s: Seq<char>, i: int)
    requires
        0 <= i < s.len(),
    ensures
        lexer::bytes(s, 0) == 0,
        lexer::bytes(s, i + 1) - lexer::bytes(s, i) == (if (s[i] as int) < 0x80 {
            1int
        } else if (s[i] as int) < 0x800 {
            2
        } else if (s[i] as int) < 0x10000 {
            3
        } else {
            4
        }),
{
}

/// The position is that of `p`, as far as a `usize` can say.
pub open spec fn stands_at(s: Seq<char>, p: int, line: usize, col: usize) -> bool {
    &&& 0 <= p <= s.len()
    &&& lexer::line_at(s, p) <= usize::MAX ==> line == lexer::line_at(s, p)
    &&& lexer::col_at(s, p) <= usize::MAX ==> col == lexer::col_at(s, p)
}

proof fn lemma_skip_in_text(s: Seq<char>, i: int)
    requires
        0 <= i <= s.len(),
    ensures
        i <= lexer::skip_blank(s, i) <= s.len(),
    decreases s.len() - i,
{
    if i < s.len() && lexer::is_blank(s[i]) {
        lemma_skip_in_text(s, i + 1);
    } else {
        match lexer::comment_end(s, i) {
            Some(e) => if i < e <= s.len() {
                lemma_skip_in_text(s, e);
            },
            None => {},
        }
    }
}

proof fn lemma_token_places(s: Seq<char>, i: int, acc: Seq<lexer::SpanV>)
    requires
        0 <= i <= s.len(),
        forall|k: int|
            0 <= k < acc.len() ==> exists|p: int|
                stands_at(s, p, (#[trigger] acc[k]).line, acc[k].col) && #[trigger] lexer::token_at(s, p) is Ok && lexer::token_at(
                    s,
                    p,
                )->Ok_0.0 == acc[k].tok,
    ensures
        lexer::lex_from(s, i, acc) matches Ok(ts) ==> forall|k: int|
            0 <= k < ts.len() ==> exists|p: int|
                stands_at(s, p, (#[trigger] ts[k]).line, ts[k].col) && #[trigger] lexer::token_at(s, p) is Ok && lexer::token_at(
                    s,
                    p,
                )->Ok_0.0 == ts[k].tok,
    decreases s.len() - i,
{
    let j = lexer::skip_blank(s, i);
    lemma_skip_in_text(s, i);
    if let Ok((tok, e)) = lexer::token_at(s, j) {
        let span = lexer::SpanV { tok, line: lexer::clamp(lexer::line_at(s, j)), col: lexer::clamp(lexer::col_at(s, j)) };
        let out = acc.push(span);
        assert(stands_at(s, j, span.line, span.col)) by {
            lexer::lemma_position(s, j);
        }
        assert forall|k: int| 0 <= k < out.len() implies exists|p: int|
            stands_at(s, p, (#[trigger] out[k]).line, out[k].col) && #[trigger] lexer::token_at(s, p) is Ok && lexer::token_at(
                    s,
                    p,
                )->Ok_0.0 == out[k].tok by {
            if k < acc.len() {
                assert(out[k] == acc[k]);
            } else {
                assert(out[k] == span);
                assert(lexer::token_at(s, j) == Ok::<(TokV, int), (Seq<char>, int)>((out[k].tok, e)));
            }
        }
        if !(tok is Eof) && i < e <= s.len() {
            lemma_token_places(s, e, out);
        }
    }
}

/// Every token says where it stands: its line and its column are those of a place in the text where
/// that token is read.
pub proof fn law_tokens_say_where_they_stand(s: Seq<char>)
    ensures
        lexer::lex(s) matches Ok(ts) ==> forall|k: int|
            0 <= k < ts.len() ==> exists|p: int|
                stands_at(s, p, (#[trigger] ts[k]).line, ts[k].col) && #[trigger] lexer::token_at(s, p) is Ok && lexer::token_at(
                    s,
                    p,
                )->Ok_0.0 == ts[k].tok,
{
    lemma_token_places(s, 0, Seq::empty());
}

/// An error says whether it is of a token or of a statement, where it is, line before column, and what is
/// wrong.
pub proof fn law_errors_say_where(message: Seq<char>, line: usize, col: usize)
    ensures
        parser::err_text(ErrV::Lex { message, line, col }) == "lex error at "@ + text::dec_text(
            line as nat,
        ) + ":"@ + text::dec_text(col as nat) + ": "@ + message,
        parser::err_text(ErrV::Parse { message, line, col }) == "parse error at "@ + text::dec_text(
            line as nat,
        ) + ":"@ + text::dec_text(col as nat) + ": "@ + message,
{
}

} // verus!
