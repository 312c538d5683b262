//! The parser of nql: from text to a plan.
//!
//! ```text
//! CREATE TABLE <ident> [VECTOR<f32, <N>>]
//! INSERT INTO <ident>:<id> { <field>: <value>, .. } [EMBED [<number>, ..]]
//! RELATE (<ident>:<id>) -> :<edge> -> (<ident>:<id>) [SET <field> = <value>, ..]
//! MATCH | CLOSURE (<ident>:<id>) ( -> | <- :<edge> [WHERE <field> = <value>] )+
//! SELECT <field>, .. | * FROM <ident> [WHERE ..] [ORDER BY ::<op>] [AS OF <int>] [LIMIT <N>]
//! FORGET <ident>:<id>
//! ```
//!
//! Keywords are matched without regard to case. The specification of each part is a function on
//! the token sequence: from a position to the value found there and the position behind it, or to
//! an error.
use vstd::prelude::*;

use crate::ir::{
    Filter, Id, Knn, MatchDirection, MatchPath, MatchStep, Order, Plan, Record, RecordId,
    RelationEdge, Select, Statement, Value,
};
#[allow(unused_imports)]
use crate::ir::{
    BodyV, EdgeV, FilV, IdV, KnnV, PathV, RecV, RidV, SelV, StepV, StmtV, ValV,
};
use crate::ir;
use crate::lexer;
use crate::lexer::{Spanned, Token};
#[allow(unused_imports)]
use crate::lexer::{SpanV, TokV};
use crate::number;
use crate::number::{Form, Numeral};
#[allow(unused_imports)]
use crate::number::{FormV, NumeralV};
use crate::ordmap;
use crate::ordmap::{Dup, OrdMap};
use crate::text;

verus! {

/// A lexing or parsing error: a message and the 1-based line and column it complains about.
#[derive(Debug, PartialEq, Eq)]
pub enum NqlError {
    /// The text does not split into tokens.
    Lex { message: String, line: usize, col: usize },
    /// The tokens do not form a statement.
    Parse { message: String, line: usize, col: usize },
}

#[verifier::ext_equal]
pub enum ErrV {
    Lex { message: Seq<char>, line: usize, col: usize },
    Parse { message: Seq<char>, line: usize, col: usize },
}

impl View for NqlError {
    type V = ErrV;

    open spec fn view(&self) -> ErrV {
        match *self {
            NqlError::Lex { message, line, col } => ErrV::Lex { message: message@, line, col },
            NqlError::Parse { message, line, col } => ErrV::Parse { message: message@, line, col },
        }
    }
}

/// The message of an error.
pub open spec fn err_message(e: ErrV) -> Seq<char> {
    match e {
        ErrV::Lex { message, .. } => message,
        ErrV::Parse { message, .. } => message,
    }
}

/// The line of an error.
pub open spec fn err_line(e: ErrV) -> usize {
    match e {
        ErrV::Lex { line, .. } => line,
        ErrV::Parse { line, .. } => line,
    }
}

/// The column of an error.
pub open spec fn err_col(e: ErrV) -> usize {
    match e {
        ErrV::Lex { col, .. } => col,
        ErrV::Parse { col, .. } => col,
    }
}

/// An error with a message, at a line and a column from 1 on.
pub open spec fn sane(e: ErrV) -> bool {
    err_line(e) >= 1 && err_col(e) >= 1 && err_message(e).len() > 0
}

/// How an error is written: its kind, its position and its message.
pub open spec fn err_text(e: ErrV) -> Seq<char> {
    let kind = match e {
        ErrV::Lex { .. } => "lex error at "@,
        ErrV::Parse { .. } => "parse error at "@,
    };
    kind + text::dec_text(err_line(e) as nat) + ":"@ + text::dec_text(err_col(e) as nat) + ": "@
        + err_message(e)
}

impl NqlError {
    /// The 1-based line of the error.
    pub fn line(&self) -> (r: usize)
        ensures
            r == err_line(self@),
    {
        match self {
            NqlError::Lex { line, .. } => *line,
            NqlError::Parse { line, .. } => *line,
        }
    }

    /// The 1-based column of the error.
    pub fn col(&self) -> (r: usize)
        ensures
            r == err_col(self@),
    {
        match self {
            NqlError::Lex { col, .. } => *col,
            NqlError::Parse { col, .. } => *col,
        }
    }

    /// The error in writing.
    pub fn to_text(&self) -> (r: String)
        ensures
            r@ == err_text(self@),
    {
        let (kind, message) = match self {
            NqlError::Lex { message, .. } => ("lex error at ", message),
            NqlError::Parse { message, .. } => ("parse error at ", message),
        };
        let line = text::usize_text(self.line());
        let col = text::usize_text(self.col());
        let mut r = text::join4(kind, line.as_str(), ":", col.as_str());
        r.append(": ");
        r.append(message.as_str());
        r
    }
}

// ---------------------------------------------------------------------------------------------
// Tokens with their floating-point forms
// ---------------------------------------------------------------------------------------------
/// A token, where it starts, and its floating-point form if it is a number.
struct Lexeme {
    tok: Token,
    line: usize,
    col: usize,
    form: Form,
}

#[verifier::ext_equal]
pub struct LexV {
    pub tok: TokV,
    pub line: usize,
    pub col: usize,
    pub form: FormV,
}

impl View for Lexeme {
    type V = LexV;

    closed spec fn view(&self) -> LexV {
        LexV { tok: self.tok@, line: self.line, col: self.col, form: self.form@ }
    }
}

/// The form of what is not a number.
pub open spec fn no_form() -> FormV {
    FormV { double: 0, single: 0, shown: Seq::empty() }
}

/// The form of a token under `g`.
pub open spec fn token_form(t: TokV, g: spec_fn(NumeralV) -> FormV) -> FormV {
    match t {
        TokV::Int(n) => g(NumeralV::Int(n)),
        TokV::Float(s) => g(NumeralV::Decimal(s)),
        _ => no_form(),
    }
}

/// A token with its form under `g`.
pub open spec fn with_form(t: SpanV, g: spec_fn(NumeralV) -> FormV) -> LexV {
    LexV { tok: t.tok, line: t.line, col: t.col, form: token_form(t.tok, g) }
}

/// Tokens with their forms under `g`.
pub open spec fn with_forms(ts: Seq<SpanV>, g: spec_fn(NumeralV) -> FormV) -> Seq<LexV> {
    Seq::new(ts.len(), |i: int| with_form(ts[i], g))
}

/// Tokens that end with their only `Eof`, at positions from 1 on.
pub open spec fn stream(ts: Seq<LexV>) -> bool {
    &&& ts.len() > 0
    &&& ts.last().tok is Eof
    &&& forall|i: int|
        0 <= i < ts.len() ==> (#[trigger] ts[i]).line >= 1 && ts[i].col >= 1 && (ts[i].tok is Eof
            ==> i == ts.len() - 1)
}

fn lexeme<F: Fn(Numeral) -> Form>(t: Spanned, forms: &F) -> (r: Lexeme)
    requires
        number::takes_numerals(*forms),
    ensures
        r@.tok == t@.tok,
        r@.line == t@.line,
        r@.col == t@.col,
        forall|g: spec_fn(NumeralV) -> FormV| #[trigger]
            number::forms_by(*forms, g) ==> r@ == with_form(t@, g),
{
    let form = match &t.tok {
        Token::Int(n) => forms(Numeral::Int(*n)),
        Token::Float(s) => forms(Numeral::Decimal(s.dup())),
        _ => Form { double: 0, single: 0, shown: String::new() },
    };
    proof {
        assert forall|g: spec_fn(NumeralV) -> FormV| #[trigger]
            number::forms_by(*forms, g) implies form@ == token_form(t@.tok, g) by {
            match t.tok {
                Token::Int(_) => {},
                Token::Float(_) => {},
                _ => {
                    assert(form@ =~= no_form());
                },
            }
        }
    }
    Lexeme { tok: t.tok, line: t.line, col: t.col, form }
}

// ---------------------------------------------------------------------------------------------
// Messages
// ---------------------------------------------------------------------------------------------
/// How a message names a token.
pub open spec fn described(t: LexV) -> Seq<char> {
    match t.tok {
        TokV::Ident(s) => "identifier `"@ + s + "`"@,
        TokV::Int(n) => "integer `"@ + text::int_text(n as int) + "`"@,
        TokV::Float(_) => "float `"@ + t.form.shown + "`"@,
        TokV::Str(s) => "string `"@ + s + "`"@,
        TokV::LParen => "`(`"@,
        TokV::RParen => "`)`"@,
        TokV::LBrace => "`{`"@,
        TokV::RBrace => "`}`"@,
        TokV::LBracket => "`[`"@,
        TokV::RBracket => "`]`"@,
        TokV::Semi => "`;`"@,
        TokV::Comma => "`,`"@,
        TokV::Arrow => "`->`"@,
        TokV::LeftArrow => "`<-`"@,
        TokV::Plus => "`+`"@,
        TokV::Colon => "`:`"@,
        TokV::DoubleColon => "`::`"@,
        TokV::Eq => "`=`"@,
        TokV::Lt => "`<`"@,
        TokV::Gt => "`>`"@,
        TokV::Star => "`*`"@,
        TokV::Eof => "end of input"@,
    }
}

/// How a message names a value; `shown` is how its number is written, where it is a float.
pub open spec fn value_named(v: ValV, shown: Seq<char>) -> Seq<char> {
    match v {
        ValV::Null => "null"@,
        ValV::Bool(b) => if b {
            "boolean `true`"@
        } else {
            "boolean `false`"@
        },
        ValV::Int(n) => "integer `"@ + text::int_text(n as int) + "`"@,
        ValV::Float(_) => "float `"@ + shown + "`"@,
        ValV::Str(s) => "string `"@ + s + "`"@,
        ValV::Doc(_) => "object"@,
        ValV::Arr(_) => "array"@,
        ValV::Vector(_) => "vector"@,
        ValV::Ref(r) => "reference `"@ + ir::rid_text(r) + "`"@,
    }
}

/// The error with message `m` at token `t`.
pub open spec fn error_at(t: LexV, m: Seq<char>) -> ErrV {
    ErrV::Parse { message: m, line: t.line, col: t.col }
}

/// The error at token `t` where `what` was due.
pub open spec fn expected(t: LexV, what: Seq<char>) -> ErrV {
    error_at(t, "expected "@ + what + ", found "@ + described(t))
}

fn value_name(v: &Value, shown: &str) -> (r: String)
    ensures
        r@ == value_named(v@, shown@),
{
    match v {
        Value::Null => text::owned("null"),
        Value::Bool(b) => if *b {
            text::owned("boolean `true`")
        } else {
            text::owned("boolean `false`")
        },
        Value::Int(n) => {
            let t = text::i64_text(*n);
            text::join3("integer `", t.as_str(), "`")
        },
        Value::Float(_) => text::join3("float `", shown, "`"),
        Value::Str(s) => text::join3("string `", s.as_str(), "`"),
        Value::Doc(_) => text::owned("object"),
        Value::Arr(_) => text::owned("array"),
        Value::Vector(_) => text::owned("vector"),
        Value::Ref(r) => {
            let t = r.to_text();
            text::join3("reference `", t.as_str(), "`")
        },
    }
}

// ---------------------------------------------------------------------------------------------
// Words, marks and integers
// ---------------------------------------------------------------------------------------------
/// The token is the word `kw`, in any case.
pub open spec fn is_word(t: TokV, kw: Seq<char>) -> bool {
    t matches TokV::Ident(w) && text::lower(w) == text::lower(kw)
}

/// An identifier.
pub open spec fn p_ident(ts: Seq<LexV>, i: int, what: Seq<char>) -> Result<
    (Seq<char>, int),
    ErrV,
> {
    match ts[i].tok {
        TokV::Ident(w) => Ok((w, i + 1)),
        _ => Err(expected(ts[i], what)),
    }
}

/// The keyword `kw`.
pub open spec fn p_keyword(
    ts: Seq<LexV>,
    i: int,
    kw: Seq<char>,
    what: Seq<char>,
) -> Result<int, ErrV> {
    if is_word(ts[i].tok, kw) {
        Ok(i + 1)
    } else {
        Err(expected(ts[i], what + " (`"@ + kw + "`)"@))
    }
}

/// The word `kw` and no other.
pub open spec fn p_word(ts: Seq<LexV>, i: int, kw: Seq<char>, what: Seq<char>) -> Result<int, ErrV> {
    if is_word(ts[i].tok, kw) {
        Ok(i + 1)
    } else {
        Err(expected(ts[i], what))
    }
}

/// The mark `want`.
pub open spec fn p_mark(ts: Seq<LexV>, i: int, want: TokV, what: Seq<char>) -> Result<int, ErrV> {
    if ts[i].tok == want {
        Ok(i + 1)
    } else {
        Err(expected(ts[i], what))
    }
}

/// `i`, or the position behind the mark `want` where that is at `i`.
pub open spec fn past(ts: Seq<LexV>, i: int, want: TokV) -> int {
    if ts[i].tok == want {
        i + 1
    } else {
        i
    }
}

/// A non-negative integer.
pub open spec fn p_usize(ts: Seq<LexV>, i: int, what: Seq<char>) -> Result<(usize, int), ErrV> {
    match ts[i].tok {
        TokV::Int(n) => if n >= 0 {
            Ok((n as usize, i + 1))
        } else {
            Err(
                error_at(
                    ts[i],
                    what + " must be non-negative, found "@ + text::int_text(n as int),
                ),
            )
        },
        _ => Err(expected(ts[i], "a non-negative integer for "@ + what)),
    }
}

/// An integer.
pub open spec fn p_int(ts: Seq<LexV>, i: int, what: Seq<char>) -> Result<(i64, int), ErrV> {
    match ts[i].tok {
        TokV::Int(n) => Ok((n, i + 1)),
        _ => Err(expected(ts[i], "an integer for "@ + what)),
    }
}

/// `table:id`, the id a number or a word.
pub open spec fn p_record_id(ts: Seq<LexV>, i: int) -> Result<(RidV, int), ErrV> {
    match p_ident(ts, i, "table name"@) {
        Err(e) => Err(e),
        Ok((table, j)) => match p_mark(ts, j, TokV::Colon, "`:` between table and id"@) {
            Err(e) => Err(e),
            Ok(k) => match ts[k].tok {
                TokV::Int(n) => if n >= 0 {
                    Ok((RidV { table, id: IdV::Num(n as u64) }, k + 1))
                } else {
                    Ok((RidV { table, id: IdV::Str(text::int_text(n as int)) }, k + 1))
                },
                TokV::Ident(w) => Ok((RidV { table, id: IdV::Str(w) }, k + 1)),
                _ => Err(expected(ts[k], "record id (number or name)"@)),
            },
        },
    }
}

/// No message of the parser is empty.
proof fn lemma_messages()
    ensures
        " must be non-negative, found "@.len() > 0,
        "expected `::bm25` after `AND`"@.len() > 0,
        "unknown WHERE operator `::"@.len() > 0,
        "::bm25 query must be a string, found "@.len() > 0,
        "k must be positive"@.len() > 0,
        "vector dimension must be positive"@.len() > 0,
        "SET weight expects a number, found "@.len() > 0,
        " requires at least one edge step (`-> :name`)"@.len() > 0,
        "expected a field name or `*` in SELECT"@.len() > 0,
        "unknown ORDER BY key `"@.len() > 0,
        "unexpected trailing input after statement"@.len() > 0,
{
    reveal_strlit(" must be non-negative, found ");
    reveal_strlit("expected `::bm25` after `AND`");
    reveal_strlit("unknown WHERE operator `::");
    reveal_strlit("::bm25 query must be a string, found ");
    reveal_strlit("k must be positive");
    reveal_strlit("vector dimension must be positive");
    reveal_strlit("SET weight expects a number, found ");
    reveal_strlit(" requires at least one edge step (`-> :name`)");
    reveal_strlit("expected a field name or `*` in SELECT");
    reveal_strlit("unknown ORDER BY key `");
    reveal_strlit("unexpected trailing input after statement");
}

/// The model of what a parsing function returns.
spec fn parsed<T: View>(r: Result<(T, usize), NqlError>) -> Result<(T::V, int), ErrV> {
    match r {
        Ok((t, j)) => Ok((t@, j as int)),
        Err(e) => Err(e@),
    }
}

/// The model of what a parsing function without a value returns.
spec fn passed(r: Result<usize, NqlError>) -> Result<int, ErrV> {
    match r {
        Ok(j) => Ok(j as int),
        Err(e) => Err(e@),
    }
}

/// A result leads on to a later token, or is an error with a message and a position.
spec fn leads_on<T>(r: Result<(T, usize), NqlError>, i: usize, n: nat) -> bool {
    match r {
        Ok((t, j)) => i < j < n,
        Err(e) => sane(e@),
    }
}

/// A result without a value leads on to a later token, or is an error.
spec fn goes_on(r: Result<usize, NqlError>, i: usize, n: nat) -> bool {
    match r {
        Ok(j) => i < j < n,
        Err(e) => sane(e@),
    }
}

fn token_same(a: &Token, b: &Token) -> (r: bool)
    ensures
        r == (a@ == b@),
{
    match (a, b) {
        (Token::Ident(x), Token::Ident(y)) => text::text_same(x.as_str(), y.as_str()),
        (Token::Int(x), Token::Int(y)) => *x == *y,
        (Token::Float(x), Token::Float(y)) => text::text_same(x.as_str(), y.as_str()),
        (Token::Str(x), Token::Str(y)) => text::text_same(x.as_str(), y.as_str()),
        (Token::LParen, Token::LParen) => true,
        (Token::RParen, Token::RParen) => true,
        (Token::LBrace, Token::LBrace) => true,
        (Token::RBrace, Token::RBrace) => true,
        (Token::LBracket, Token::LBracket) => true,
        (Token::RBracket, Token::RBracket) => true,
        (Token::Semi, Token::Semi) => true,
        (Token::Comma, Token::Comma) => true,
        (Token::Arrow, Token::Arrow) => true,
        (Token::LeftArrow, Token::LeftArrow) => true,
        (Token::Plus, Token::Plus) => true,
        (Token::Colon, Token::Colon) => true,
        (Token::DoubleColon, Token::DoubleColon) => true,
        (Token::Eq, Token::Eq) => true,
        (Token::Lt, Token::Lt) => true,
        (Token::Gt, Token::Gt) => true,
        (Token::Star, Token::Star) => true,
        (Token::Eof, Token::Eof) => true,
        _ => false,
    }
}

/// The tokens of a program; its methods parse at a position.
struct Parser {
    toks: Vec<Lexeme>,
}

impl Parser {
    spec fn ts(&self) -> Seq<LexV> {
        ordmap::views(self.toks@)
    }

    spec fn ready(&self, i: usize) -> bool {
        stream(self.ts()) && i < self.toks.len()
    }

    fn describe(&self, i: usize) -> (r: String)
        requires
            self.ready(i),
        ensures
            r@ == described(self.ts()[i as int]),
    {
        assert(self.ts()[i as int] == self.toks@[i as int]@);
        match &self.toks[i].tok {
            Token::Ident(s) => text::join3("identifier `", s.as_str(), "`"),
            Token::Int(n) => {
                let t = text::i64_text(*n);
                text::join3("integer `", t.as_str(), "`")
            },
            Token::Float(_) => text::join3("float `", self.toks[i].form.shown.as_str(), "`"),
            Token::Str(s) => text::join3("string `", s.as_str(), "`"),
            Token::LParen => text::owned("`(`"),
            Token::RParen => text::owned("`)`"),
            Token::LBrace => text::owned("`{`"),
            Token::RBrace => text::owned("`}`"),
            Token::LBracket => text::owned("`[`"),
            Token::RBracket => text::owned("`]`"),
            Token::Semi => text::owned("`;`"),
            Token::Comma => text::owned("`,`"),
            Token::Arrow => text::owned("`->`"),
            Token::LeftArrow => text::owned("`<-`"),
            Token::Plus => text::owned("`+`"),
            Token::Colon => text::owned("`:`"),
            Token::DoubleColon => text::owned("`::`"),
            Token::Eq => text::owned("`=`"),
            Token::Lt => text::owned("`<`"),
            Token::Gt => text::owned("`>`"),
            Token::Star => text::owned("`*`"),
            Token::Eof => text::owned("end of input"),
        }
    }

    fn err_at(&self, i: usize, message: String) -> (r: NqlError)
        requires
            self.ready(i),
        ensures
            r@ == error_at(self.ts()[i as int], message@),
            message@.len() > 0 ==> sane(r@),
    {
        assert(self.ts()[i as int] == self.toks@[i as int]@);
        NqlError::Parse { message, line: self.toks[i].line, col: self.toks[i].col }
    }

    fn err_expected(&self, i: usize, what: &str) -> (r: NqlError)
        requires
            self.ready(i),
        ensures
            r@ == expected(self.ts()[i as int], what@),
            sane(r@),
    {
        proof {
            reveal_strlit("expected ");
        }
        let found = self.describe(i);
        self.err_at(i, text::join4("expected ", what, ", found ", found.as_str()))
    }

    /// Whether the token at `i` is the word `kw`.
    fn word(&self, i: usize, kw: &str) -> (r: bool)
        requires
            self.ready(i),
        ensures
            r == is_word(self.ts()[i as int].tok, kw@),
            r ==> i + 1 < self.toks.len(),
    {
        assert(self.ts()[i as int] == self.toks@[i as int]@);
        match &self.toks[i].tok {
            Token::Ident(w) => text::same_ignoring_case(w.as_str(), kw),
            _ => false,
        }
    }

    /// Whether the token at `i` is the mark `want`.
    fn mark(&self, i: usize, want: Token) -> (r: bool)
        requires
            self.ready(i),
            !(want@ is Eof),
        ensures
            r == (self.ts()[i as int].tok == want@),
            r ==> i + 1 < self.toks.len(),
    {
        assert(self.ts()[i as int] == self.toks@[i as int]@);
        token_same(&self.toks[i].tok, &want)
    }

    fn skip_mark(&self, i: usize, want: Token) -> (r: usize)
        requires
            self.ready(i),
            !(want@ is Eof),
        ensures
            r == past(self.ts(), i as int, want@),
            i <= r < self.toks.len(),
    {
        if self.mark(i, want) {
            i + 1
        } else {
            i
        }
    }

    fn expect_ident(&self, i: usize, what: &str) -> (r: Result<(String, usize), NqlError>)
        requires
            self.ready(i),
        ensures
            parsed(r) == p_ident(self.ts(), i as int, what@),
            leads_on(r, i, self.toks@.len()),
    {
        assert(self.ts()[i as int] == self.toks@[i as int]@);
        match &self.toks[i].tok {
            Token::Ident(w) => Ok((text::owned(w.as_str()), i + 1)),
            _ => Err(self.err_expected(i, what)),
        }
    }

    fn expect_keyword(&self, i: usize, kw: &str, what: &str) -> (r: Result<usize, NqlError>)
        requires
            self.ready(i),
        ensures
            passed(r) == p_keyword(self.ts(), i as int, kw@, what@),
            goes_on(r, i, self.toks@.len()),
    {
        if self.word(i, kw) {
            Ok(i + 1)
        } else {
            let w = text::join4(what, " (`", kw, "`)");
            Err(self.err_expected(i, w.as_str()))
        }
    }

    fn expect_word(&self, i: usize, kw: &str, what: &str) -> (r: Result<usize, NqlError>)
        requires
            self.ready(i),
        ensures
            passed(r) == p_word(self.ts(), i as int, kw@, what@),
            goes_on(r, i, self.toks@.len()),
    {
        if self.word(i, kw) {
            Ok(i + 1)
        } else {
            Err(self.err_expected(i, what))
        }
    }

    fn expect_token(&self, i: usize, want: Token, what: &str) -> (r: Result<usize, NqlError>)
        requires
            self.ready(i),
            !(want@ is Eof),
        ensures
            passed(r) == p_mark(self.ts(), i as int, want@, what@),
            goes_on(r, i, self.toks@.len()),
    {
        if self.mark(i, want) {
            Ok(i + 1)
        } else {
            Err(self.err_expected(i, what))
        }
    }

    fn expect_usize(&self, i: usize, what: &str) -> (r: Result<(usize, usize), NqlError>)
        requires
            self.ready(i),
        ensures
            parsed(r) == p_usize(self.ts(), i as int, what@),
            leads_on(r, i, self.toks@.len()),
    {
        proof {
            lemma_messages();
        }
        assert(self.ts()[i as int] == self.toks@[i as int]@);
        match &self.toks[i].tok {
            Token::Int(n) => {
                if *n >= 0 {
                    Ok((*n as usize, i + 1))
                } else {
                    let t = text::i64_text(*n);
                    Err(
                        self.err_at(
                            i,
                            text::join3(what, " must be non-negative, found ", t.as_str()),
                        ),
                    )
                }
            },
            _ => {
                let w = text::join2("a non-negative integer for ", what);
                Err(self.err_expected(i, w.as_str()))
            },
        }
    }

    fn expect_int(&self, i: usize, what: &str) -> (r: Result<(i64, usize), NqlError>)
        requires
            self.ready(i),
        ensures
            parsed(r) == p_int(self.ts(), i as int, what@),
            leads_on(r, i, self.toks@.len()),
    {
        assert(self.ts()[i as int] == self.toks@[i as int]@);
        match &self.toks[i].tok {
            Token::Int(n) => Ok((*n, i + 1)),
            _ => {
                let w = text::join2("an integer for ", what);
                Err(self.err_expected(i, w.as_str()))
            },
        }
    }

    fn parse_record_id(&self, i: usize) -> (r: Result<(RecordId, usize), NqlError>)
        requires
            self.ready(i),
        ensures
            parsed(r) == p_record_id(self.ts(), i as int),
            leads_on(r, i, self.toks@.len()),
    {
        let (table, j) = match self.expect_ident(i, "table name") {
            Ok(p) => p,
            Err(e) => return Err(e),
        };
        let k = match self.expect_token(j, Token::Colon, "`:` between table and id") {
            Ok(k) => k,
            Err(e) => return Err(e),
        };
        assert(self.ts()[k as int] == self.toks@[k as int]@);
        match &self.toks[k].tok {
            Token::Int(n) => {
                if *n >= 0 {
                    Ok((RecordId { table, id: Id::Num(*n as u64) }, k + 1))
                } else {
                    Ok((RecordId { table, id: Id::Str(text::i64_text(*n)) }, k + 1))
                }
            },
            Token::Ident(w) => Ok(
                (RecordId { table, id: Id::Str(text::owned(w.as_str())) }, k + 1),
            ),
            _ => Err(self.err_expected(k, "record id (number or name)")),
        }
    }
}

// ---------------------------------------------------------------------------------------------
// Values
// ---------------------------------------------------------------------------------------------
/// The value is a number.
pub open spec fn is_number(v: ValV) -> bool {
    v is Int || v is Float
}

/// The value of an array: a vector where it holds numbers only, and at least one.
pub open spec fn array_value(elems: Seq<ValV>, singles: Seq<u32>) -> ValV {
    if elems.len() > 0 && (forall|i: int| 0 <= i < elems.len() ==> is_number(#[trigger] elems[i])) {
        ValV::Vector(singles)
    } else {
        ValV::Arr(elems)
    }
}

/// The value that a bare word is.
pub open spec fn word_value(w: Seq<char>) -> ValV {
    if text::lower(w) == text::lower("true"@) {
        ValV::Bool(true)
    } else if text::lower(w) == text::lower("false"@) {
        ValV::Bool(false)
    } else if text::lower(w) == text::lower("null"@) {
        ValV::Null
    } else {
        ValV::Str(w)
    }
}

/// A value.
pub open spec fn p_value(ts: Seq<LexV>, i: int) -> Result<(ValV, int), ErrV>
    decreases ts.len() - i, 0int,
{
    match ts[i].tok {
        TokV::Str(s) => Ok((ValV::Str(s), i + 1)),
        TokV::Int(n) => Ok((ValV::Int(n), i + 1)),
        TokV::Float(_) => Ok((ValV::Float(ts[i].form.double), i + 1)),
        TokV::Ident(w) => Ok((word_value(w), i + 1)),
        TokV::LBrace => if i + 1 <= ts.len() {
            match p_object(ts, i + 1, Seq::empty()) {
                Ok((m, j)) => Ok((ValV::Doc(m), j)),
                Err(e) => Err(e),
            }
        } else {
            Err(expected(ts[i], "a value"@))
        },
        TokV::LBracket => if i + 1 <= ts.len() {
            p_array(ts, i + 1, Seq::empty(), Seq::empty())
        } else {
            Err(expected(ts[i], "a value"@))
        },
        _ => Err(expected(ts[i], "a value"@)),
    }
}

/// The fields of an object behind its opening brace, put into `acc`; a later field of a name
/// replaces an earlier one.
pub open spec fn p_object(ts: Seq<LexV>, i: int, acc: BodyV) -> Result<(BodyV, int), ErrV>
    decreases ts.len() - i, 1int,
{
    match ts[i].tok {
        TokV::RBrace => Ok((acc, i + 1)),
        TokV::Str(key) => p_field(ts, i, key, acc),
        TokV::Ident(key) => p_field(ts, i, key, acc),
        _ => Err(expected(ts[i], "object key or `}`"@)),
    }
}

/// The field `key` at `i`, and the fields behind it.
pub open spec fn p_field(ts: Seq<LexV>, i: int, key: Seq<char>, acc: BodyV) -> Result<
    (BodyV, int),
    ErrV,
>
    decreases ts.len() - i, 0int,
{
    match p_mark(ts, i + 1, TokV::Colon, "`:` after object key"@) {
        Err(e) => Err(e),
        Ok(j) => if i < j <= ts.len() {
            match p_value(ts, j) {
                Err(e) => Err(e),
                Ok((v, k)) => {
                    let out = ordmap::put::<String, ValV>(acc, key, v);
                    if ts[k].tok is Comma && i < k + 1 <= ts.len() {
                        p_object(ts, k + 1, out)
                    } else {
                        match p_mark(ts, k, TokV::RBrace, "`}` closing record body"@) {
                            Err(e) => Err(e),
                            Ok(m) => Ok((out, m)),
                        }
                    }
                },
            }
        } else {
            Err(expected(ts[i], "object key or `}`"@))
        },
    }
}

/// The elements of an array behind its opening bracket, behind `elems`; `singles` holds the single
/// of each element's first token.
pub open spec fn p_array(ts: Seq<LexV>, i: int, elems: Seq<ValV>, singles: Seq<u32>) -> Result<
    (ValV, int),
    ErrV,
>
    decreases ts.len() - i, 1int,
{
    if ts[i].tok is RBracket {
        Ok((array_value(elems, singles), i + 1))
    } else {
        match p_value(ts, i) {
            Err(e) => Err(e),
            Ok((v, k)) => {
                let elems = elems.push(v);
                let singles = singles.push(ts[i].form.single);
                if ts[k].tok is Comma && i < k + 1 <= ts.len() {
                    p_array(ts, k + 1, elems, singles)
                } else {
                    match p_mark(ts, k, TokV::RBracket, "`]` closing array"@) {
                        Err(e) => Err(e),
                        Ok(m) => Ok((array_value(elems, singles), m)),
                    }
                }
            },
        }
    }
}

/// The numbers of a vector behind its opening bracket, behind `acc`.
pub open spec fn p_numbers(ts: Seq<LexV>, i: int, acc: Seq<u32>) -> Result<(Seq<u32>, int), ErrV>
    decreases ts.len() - i,
{
    if ts[i].tok is RBracket {
        Ok((acc, i + 1))
    } else if ts[i].tok is Int || ts[i].tok is Float {
        let out = acc.push(ts[i].form.single);
        if ts[i + 1].tok is Comma && i + 2 <= ts.len() {
            p_numbers(ts, i + 2, out)
        } else {
            match p_mark(ts, i + 1, TokV::RBracket, "`]` closing vector literal"@) {
                Err(e) => Err(e),
                Ok(m) => Ok((out, m)),
            }
        }
    } else {
        Err(expected(ts[i], "a number in vector literal"@))
    }
}

/// A vector of numbers.
pub open spec fn p_vector(ts: Seq<LexV>, i: int) -> Result<(Seq<u32>, int), ErrV> {
    match p_mark(ts, i, TokV::LBracket, "`[` starting vector literal"@) {
        Err(e) => Err(e),
        Ok(j) => p_numbers(ts, j, Seq::empty()),
    }
}

fn all_numbers(elems: &Vec<Value>) -> (r: bool)
    ensures
        r == (elems.len() > 0 && forall|i: int|
            0 <= i < elems@.len() ==> is_number(#[trigger] ordmap::views(elems@)[i])),
{
    if elems.len() == 0 {
        return false;
    }
    let mut i: usize = 0;
    while i < elems.len()
        invariant
            i <= elems.len(),
            forall|j: int| 0 <= j < i ==> is_number(#[trigger] ordmap::views(elems@)[j]),
        decreases elems.len() - i,
    {
        assert(ordmap::views(elems@)[i as int] == elems@[i as int]@);
        match &elems[i] {
            Value::Int(_) => {},
            Value::Float(_) => {},
            _ => {
                assert(!is_number(ordmap::views(elems@)[i as int]));
                return false;
            },
        }
        i = i + 1;
    }
    true
}

fn array_of(elems: Vec<Value>, singles: Vec<u32>) -> (r: Value)
    ensures
        r@ == array_value(ordmap::views(elems@), singles@),
{
    if all_numbers(&elems) {
        Value::Vector(singles)
    } else {
        proof {
            ir::lemma_arr_view(elems);
        }
        Value::Arr(elems)
    }
}

impl Parser {
    fn parse_value(&self, i: usize) -> (r: Result<(Value, usize), NqlError>)
        requires
            self.ready(i),
        ensures
            parsed(r) == p_value(self.ts(), i as int),
            leads_on(r, i, self.toks@.len()),
        decreases self.toks.len() - i, 0int,
    {
        assert(self.ts()[i as int] == self.toks@[i as int]@);
        match &self.toks[i].tok {
            Token::Str(s) => Ok((Value::Str(text::owned(s.as_str())), i + 1)),
            Token::Int(n) => Ok((Value::Int(*n), i + 1)),
            Token::Float(_) => Ok((Value::Float(self.toks[i].form.double), i + 1)),
            Token::Ident(w) => {
                if text::same_ignoring_case(w.as_str(), "true") {
                    Ok((Value::Bool(true), i + 1))
                } else if text::same_ignoring_case(w.as_str(), "false") {
                    Ok((Value::Bool(false), i + 1))
                } else if text::same_ignoring_case(w.as_str(), "null") {
                    Ok((Value::Null, i + 1))
                } else {
                    Ok((Value::Str(text::owned(w.as_str())), i + 1))
                }
            },
            Token::LBrace => match self.parse_object_body(i + 1) {
                Ok((m, j)) => {
                    proof {
                        ir::lemma_doc_view(m);
                    }
                    Ok((Value::Doc(m), j))
                },
                Err(e) => Err(e),
            },
            Token::LBracket => self.parse_array_body(i + 1),
            _ => Err(self.err_expected(i, "a value")),
        }
    }

    /// The fields of an object whose opening brace is before `i`.
    fn parse_object_body(&self, i: usize) -> (r: Result<(OrdMap<String, Value>, usize), NqlError>)
        requires
            self.ready(i),
        ensures
            parsed(r) == p_object(self.ts(), i as int, Seq::empty()),
            leads_on(r, i, self.toks@.len()),
        decreases self.toks.len() - i, 1int,
    {
        let mut map: OrdMap<String, Value> = OrdMap::new();
        let mut at: usize = i;
        loop
            invariant
                self.ready(at),
                i <= at,
                p_object(self.ts(), i as int, Seq::empty()) == p_object(
                    self.ts(),
                    at as int,
                    map@,
                ),
            decreases self.toks.len() - at,
        {
            assert(self.ts()[at as int] == self.toks@[at as int]@);
            let key = match &self.toks[at].tok {
                Token::RBrace => return Ok((map, at + 1)),
                Token::Str(key) => text::owned(key.as_str()),
                Token::Ident(key) => text::owned(key.as_str()),
                _ => return Err(self.err_expected(at, "object key or `}`")),
            };
            assert(p_object(self.ts(), at as int, map@) == p_field(
                self.ts(),
                at as int,
                key@,
                map@,
            ));
            let j = match self.expect_token(at + 1, Token::Colon, "`:` after object key") {
                Ok(j) => j,
                Err(e) => return Err(e),
            };
            let (value, k) = match self.parse_value(j) {
                Ok(p) => p,
                Err(e) => return Err(e),
            };
            map.insert(key, value);
            if self.mark(k, Token::Comma) {
                at = k + 1;
            } else {
                match self.expect_token(k, Token::RBrace, "`}` closing record body") {
                    Ok(m) => return Ok((map, m)),
                    Err(e) => return Err(e),
                }
            }
        }
    }

    /// The elements of an array whose opening bracket is before `i`.
    fn parse_array_body(&self, i: usize) -> (r: Result<(Value, usize), NqlError>)
        requires
            self.ready(i),
        ensures
            parsed(r) == p_array(self.ts(), i as int, Seq::empty(), Seq::empty()),
            leads_on(r, i, self.toks@.len()),
        decreases self.toks.len() - i, 1int,
    {
        let mut elems: Vec<Value> = Vec::new();
        let mut singles: Vec<u32> = Vec::new();
        let mut at: usize = i;
        assert(ordmap::views(elems@) =~= Seq::<ValV>::empty());
        loop
            invariant
                self.ready(at),
                i <= at,
                p_array(self.ts(), i as int, Seq::empty(), Seq::empty()) == p_array(
                    self.ts(),
                    at as int,
                    ordmap::views(elems@),
                    singles@,
                ),
            decreases self.toks.len() - at,
        {
            if self.mark(at, Token::RBracket) {
                return Ok((array_of(elems, singles), at + 1));
            }
            assert(self.ts()[at as int] == self.toks@[at as int]@);
            let (v, k) = match self.parse_value(at) {
                Ok(p) => p,
                Err(e) => return Err(e),
            };
            let ghost before = ordmap::views(elems@);
            let ghost vv = v@;
            elems.push(v);
            singles.push(self.toks[at].form.single);
            assert(ordmap::views(elems@) =~= before.push(vv));
            if self.mark(k, Token::Comma) {
                at = k + 1;
            } else {
                match self.expect_token(k, Token::RBracket, "`]` closing array") {
                    Ok(m) => return Ok((array_of(elems, singles), m)),
                    Err(e) => return Err(e),
                }
            }
        }
    }

    fn parse_float_vector(&self, i: usize) -> (r: Result<(Vec<u32>, usize), NqlError>)
        requires
            self.ready(i),
        ensures
            parsed(r) == p_vector(self.ts(), i as int),
            leads_on(r, i, self.toks@.len()),
    {
        let start = match self.expect_token(i, Token::LBracket, "`[` starting vector literal") {
            Ok(j) => j,
            Err(e) => return Err(e),
        };
        let mut out: Vec<u32> = Vec::new();
        let mut at: usize = start;
        loop
            invariant
                self.ready(at),
                i < start <= at,
                p_vector(self.ts(), i as int) == p_numbers(self.ts(), at as int, out@),
            decreases self.toks.len() - at,
        {
            assert(self.ts()[at as int] == self.toks@[at as int]@);
            match &self.toks[at].tok {
                Token::RBracket => return Ok((out, at + 1)),
                Token::Int(_) => {},
                Token::Float(_) => {},
                _ => return Err(self.err_expected(at, "a number in vector literal")),
            }
            out.push(self.toks[at].form.single);
            if self.mark(at + 1, Token::Comma) {
                at = at + 2;
            } else {
                match self.expect_token(at + 1, Token::RBracket, "`]` closing vector literal") {
                    Ok(m) => return Ok((out, m)),
                    Err(e) => return Err(e),
                }
            }
        }
    }
}

// ---------------------------------------------------------------------------------------------
// WHERE
// ---------------------------------------------------------------------------------------------
/// `::bm25(<field>, "<query>") [AND k = <N>]`. An `AND` that no `k` follows is left alone.
#[verifier::opaque]
pub open spec fn p_bm25(ts: Seq<LexV>, i: int) -> Result<(FilV, int), ErrV> {
    if !(ts[i].tok is DoubleColon) {
        Err(error_at(ts[i], "expected `::bm25` after `AND`"@))
    } else {
        match p_ident(ts, i + 1, "operator after `::`"@) {
            Err(e) => Err(e),
            Ok((op, a)) => if text::lower(op) != text::lower("bm25"@) {
                Err(
                    error_at(ts[a], "unknown WHERE operator `::"@ + op + "` (expected ::bm25)"@),
                )
            } else {
                match p_mark(ts, a, TokV::LParen, "`(` after ::bm25"@) {
                    Err(e) => Err(e),
                    Ok(b) => match p_ident(ts, b, "::bm25 field name"@) {
                        Err(e) => Err(e),
                        Ok((field, c)) => match p_mark(
                            ts,
                            c,
                            TokV::Comma,
                            "`,` between field and query"@,
                        ) {
                            Err(e) => Err(e),
                            Ok(d) => match p_value(ts, d) {
                                Err(e) => Err(e),
                                Ok((v, f)) => match v {
                                    ValV::Str(query) => match p_mark(
                                        ts,
                                        f,
                                        TokV::RParen,
                                        "`)` closing ::bm25"@,
                                    ) {
                                        Err(e) => Err(e),
                                        Ok(g) => p_bm25_cap(ts, g, field, query),
                                    },
                                    _ => Err(
                                        error_at(
                                            ts[f],
                                            "::bm25 query must be a string, found "@ + value_named(
                                                v,
                                                ts[d].form.shown,
                                            ),
                                        ),
                                    ),
                                },
                            },
                        },
                    },
                }
            },
        }
    }
}

/// The optional `AND k = <N>` of a lexical clause.
pub open spec fn p_bm25_cap(ts: Seq<LexV>, i: int, field: Seq<char>, query: Seq<char>) -> Result<
    (FilV, int),
    ErrV,
> {
    if is_word(ts[i].tok, "and"@) && is_word(ts[i + 1].tok, "k"@) {
        match p_mark(ts, i + 2, TokV::Eq, "`=` before k"@) {
            Err(e) => Err(e),
            Ok(j) => match p_usize(ts, j, "k"@) {
                Err(e) => Err(e),
                Ok((k, m)) => Ok((FilV::Bm25 { field, query, k: Some(k) }, m)),
            },
        }
    } else {
        Ok((FilV::Bm25 { field, query, k: None }, i))
    }
}

/// `vector::similarity(embedding, [<number>, ..]) AND k = <N>`.
#[verifier::opaque]
pub open spec fn p_knn(ts: Seq<LexV>, i: int) -> Result<(KnnV, int), ErrV> {
    match p_knn_query(ts, i) {
        Err(e) => Err(e),
        Ok((query, a)) => match p_keyword(ts, a, "and"@, "AND in kNN WHERE clause"@) {
            Err(e) => Err(e),
            Ok(b) => match p_word(ts, b, "k"@, "`k`"@) {
                Err(e) => Err(e),
                Ok(c) => match p_mark(ts, c, TokV::Eq, "`=` before k"@) {
                    Err(e) => Err(e),
                    Ok(d) => match p_usize(ts, d, "k"@) {
                        Err(e) => Err(e),
                        Ok((k, f)) => if k == 0 {
                            Err(error_at(ts[f], "k must be positive"@))
                        } else {
                            Ok((KnnV { query, k }, f))
                        },
                    },
                },
            },
        },
    }
}

/// `vector::similarity(embedding, [<number>, ..])`.
pub open spec fn p_knn_query(ts: Seq<LexV>, i: int) -> Result<(Seq<u32>, int), ErrV> {
    match p_word(ts, i, "vector"@, "`vector`"@) {
        Err(e) => Err(e),
        Ok(a) => match p_mark(ts, a, TokV::DoubleColon, "`::` after `vector`"@) {
            Err(e) => Err(e),
            Ok(b) => match p_word(ts, b, "similarity"@, "`similarity`"@) {
                Err(e) => Err(e),
                Ok(c) => match p_mark(
                    ts,
                    c,
                    TokV::LParen,
                    "`(` after vector::similarity"@,
                ) {
                    Err(e) => Err(e),
                    Ok(d) => match p_word(ts, d, "embedding"@, "`embedding`"@) {
                        Err(e) => Err(e),
                        Ok(f) => match p_mark(
                            ts,
                            f,
                            TokV::Comma,
                            "`,` between embedding and query vector"@,
                        ) {
                            Err(e) => Err(e),
                            Ok(g) => match p_vector(ts, g) {
                                Err(e) => Err(e),
                                Ok((query, h)) => match p_mark(
                                    ts,
                                    h,
                                    TokV::RParen,
                                    "`)` closing vector::similarity"@,
                                ) {
                                    Err(e) => Err(e),
                                    Ok(m) => Ok((query, m)),
                                },
                            },
                        },
                    },
                },
            },
        },
    }
}

/// What follows `WHERE`: a lexical clause, a kNN clause, both, or a condition on one field.
#[verifier::opaque]
pub open spec fn p_where(ts: Seq<LexV>, i: int) -> Result<
    ((Option<KnnV>, Option<FilV>), int),
    ErrV,
> {
    if ts[i].tok is DoubleColon {
        match p_bm25(ts, i) {
            Err(e) => Err(e),
            Ok((filter, a)) => if is_word(ts[a].tok, "and"@) {
                match p_knn(ts, a + 1) {
                    Err(e) => Err(e),
                    Ok((knn, b)) => Ok(((Some(knn), Some(filter)), b)),
                }
            } else {
                Ok(((None, Some(filter)), a))
            },
        }
    } else if is_word(ts[i].tok, "vector"@) {
        match p_knn(ts, i) {
            Err(e) => Err(e),
            Ok((knn, a)) => if is_word(ts[a].tok, "and"@) {
                match p_bm25(ts, a + 1) {
                    Err(e) => Err(e),
                    Ok((filter, b)) => Ok(((Some(knn), Some(filter)), b)),
                }
            } else {
                Ok(((Some(knn), None), a))
            },
        }
    } else {
        match p_ident(ts, i, "WHERE field name"@) {
            Err(e) => Err(e),
            Ok((field, a)) => if is_word(ts[a].tok, "is"@) && !is_word(ts[i].tok, "embedding"@) {
                Err(expected(ts[i], "`embedding` before `IS NOT NULL`"@))
            } else if is_word(ts[a].tok, "is"@) {
                match p_keyword(ts, a + 1, "not"@, "NOT in `IS NOT NULL`"@) {
                    Err(e) => Err(e),
                    Ok(b) => match p_keyword(ts, b, "null"@, "NULL in `IS NOT NULL`"@) {
                        Err(e) => Err(e),
                        Ok(c) => Ok(((None, Some(FilV::HasEmbedding)), c)),
                    },
                }
            } else {
                match p_mark(ts, a, TokV::Eq, "`=` in WHERE clause"@) {
                    Err(e) => Err(e),
                    Ok(b) => match p_value(ts, b) {
                        Err(e) => Err(e),
                        Ok((value, c)) => Ok(
                            ((None, Some(FilV::FieldEquals { field, value })), c),
                        ),
                    },
                }
            },
        }
    }
}

impl Parser {
    fn parse_bm25_filter(&self, i: usize) -> (r: Result<(Filter, usize), NqlError>)
        requires
            self.ready(i),
        ensures
            parsed(r) == p_bm25(self.ts(), i as int),
            leads_on(r, i, self.toks@.len()),
    {
        proof {
            reveal(p_bm25);
            lemma_messages();
        }
        if !self.mark(i, Token::DoubleColon) {
            return Err(self.err_at(i, text::owned("expected `::bm25` after `AND`")));
        }
        let (op, a) = match self.expect_ident(i + 1, "operator after `::`") {
            Ok(p) => p,
            Err(e) => return Err(e),
        };
        if !text::same_ignoring_case(op.as_str(), "bm25") {
            let m = text::join3("unknown WHERE operator `::", op.as_str(), "` (expected ::bm25)");
            return Err(self.err_at(a, m));
        }
        let b = match self.expect_token(a, Token::LParen, "`(` after ::bm25") {
            Ok(j) => j,
            Err(e) => return Err(e),
        };
        let (field, c) = match self.expect_ident(b, "::bm25 field name") {
            Ok(p) => p,
            Err(e) => return Err(e),
        };
        let d = match self.expect_token(c, Token::Comma, "`,` between field and query") {
            Ok(j) => j,
            Err(e) => return Err(e),
        };
        let (v, f) = match self.parse_value(d) {
            Ok(p) => p,
            Err(e) => return Err(e),
        };
        let query = match v {
            Value::Str(s) => s,
            other => {
                assert(self.ts()[d as int] == self.toks@[d as int]@);
                let name = value_name(&other, self.toks[d].form.shown.as_str());
                let m = text::join2("::bm25 query must be a string, found ", name.as_str());
                return Err(self.err_at(f, m));
            },
        };
        let g = match self.expect_token(f, Token::RParen, "`)` closing ::bm25") {
            Ok(j) => j,
            Err(e) => return Err(e),
        };
        if self.word(g, "and") && self.word(g + 1, "k") {
            let j = match self.expect_token(g + 2, Token::Eq, "`=` before k") {
                Ok(j) => j,
                Err(e) => return Err(e),
            };
            let (k, m) = match self.expect_usize(j, "k") {
                Ok(p) => p,
                Err(e) => return Err(e),
            };
            return Ok((Filter::Bm25 { field, query, k: Some(k) }, m));
        }
        Ok((Filter::Bm25 { field, query, k: None }, g))
    }

    fn parse_knn_query(&self, i: usize) -> (r: Result<(Vec<u32>, usize), NqlError>)
        requires
            self.ready(i),
        ensures
            parsed(r) == p_knn_query(self.ts(), i as int),
            leads_on(r, i, self.toks@.len()),
    {
        let a = match self.expect_word(i, "vector", "`vector`") {
            Ok(j) => j,
            Err(e) => return Err(e),
        };
        let b = match self.expect_token(a, Token::DoubleColon, "`::` after `vector`") {
            Ok(j) => j,
            Err(e) => return Err(e),
        };
        let c = match self.expect_word(b, "similarity", "`similarity`") {
            Ok(j) => j,
            Err(e) => return Err(e),
        };
        let d = match self.expect_token(c, Token::LParen, "`(` after vector::similarity") {
            Ok(j) => j,
            Err(e) => return Err(e),
        };
        let f = match self.expect_word(d, "embedding", "`embedding`") {
            Ok(j) => j,
            Err(e) => return Err(e),
        };
        let g = match self.expect_token(
            f,
            Token::Comma,
            "`,` between embedding and query vector",
        ) {
            Ok(j) => j,
            Err(e) => return Err(e),
        };
        let (query, h) = match self.parse_float_vector(g) {
            Ok(p) => p,
            Err(e) => return Err(e),
        };
        match self.expect_token(h, Token::RParen, "`)` closing vector::similarity") {
            Ok(m) => Ok((query, m)),
            Err(e) => Err(e),
        }
    }

    fn parse_knn(&self, i: usize) -> (r: Result<(Knn, usize), NqlError>)
        requires
            self.ready(i),
        ensures
            parsed(r) == p_knn(self.ts(), i as int),
            leads_on(r, i, self.toks@.len()),
    {
        proof {
            reveal(p_knn);
            lemma_messages();
        }
        let (query, a) = match self.parse_knn_query(i) {
            Ok(p) => p,
            Err(e) => return Err(e),
        };
        let b = match self.expect_keyword(a, "and", "AND in kNN WHERE clause") {
            Ok(j) => j,
            Err(e) => return Err(e),
        };
        let c = match self.expect_word(b, "k", "`k`") {
            Ok(j) => j,
            Err(e) => return Err(e),
        };
        let d = match self.expect_token(c, Token::Eq, "`=` before k") {
            Ok(j) => j,
            Err(e) => return Err(e),
        };
        let (k, f) = match self.expect_usize(d, "k") {
            Ok(p) => p,
            Err(e) => return Err(e),
        };
        if k == 0 {
            return Err(self.err_at(f, text::owned("k must be positive")));
        }
        Ok((Knn { query, k }, f))
    }

    fn parse_where(&self, i: usize) -> (r: Result<
        ((Option<Knn>, Option<Filter>), usize),
        NqlError,
    >)
        requires
            self.ready(i),
        ensures
            match r {
                Ok(((knn, filter), j)) => i < j < self.toks.len() && p_where(self.ts(), i as int)
                    == Ok::<((Option<KnnV>, Option<FilV>), int), ErrV>(
                    ((ordmap::opt_view(knn), ordmap::opt_view(filter)), j as int),
                ),
                Err(e) => sane(e@) && p_where(self.ts(), i as int) == Err::<
                    ((Option<KnnV>, Option<FilV>), int),
                    ErrV,
                >(e@),
            },
    {
        proof {
            reveal(p_where);
        }
        if self.mark(i, Token::DoubleColon) {
            let (filter, a) = match self.parse_bm25_filter(i) {
                Ok(p) => p,
                Err(e) => return Err(e),
            };
            if self.word(a, "and") {
                return match self.parse_knn(a + 1) {
                    Ok((knn, b)) => Ok(((Some(knn), Some(filter)), b)),
                    Err(e) => Err(e),
                };
            }
            return Ok(((None, Some(filter)), a));
        }
        if self.word(i, "vector") {
            let (knn, a) = match self.parse_knn(i) {
                Ok(p) => p,
                Err(e) => return Err(e),
            };
            if self.word(a, "and") {
                return match self.parse_bm25_filter(a + 1) {
                    Ok((filter, b)) => Ok(((Some(knn), Some(filter)), b)),
                    Err(e) => Err(e),
                };
            }
            return Ok(((Some(knn), None), a));
        }
        let (field, a) = match self.expect_ident(i, "WHERE field name") {
            Ok(p) => p,
            Err(e) => return Err(e),
        };
        if self.word(a, "is") {
            if !self.word(i, "embedding") {
                return Err(self.err_expected(i, "`embedding` before `IS NOT NULL`"));
            }
            let b = match self.expect_keyword(a + 1, "not", "NOT in `IS NOT NULL`") {
                Ok(j) => j,
                Err(e) => return Err(e),
            };
            return match self.expect_keyword(b, "null", "NULL in `IS NOT NULL`") {
                Ok(c) => Ok(((None, Some(Filter::HasEmbedding)), c)),
                Err(e) => Err(e),
            };
        }
        let b = match self.expect_token(a, Token::Eq, "`=` in WHERE clause") {
            Ok(j) => j,
            Err(e) => return Err(e),
        };
        match self.parse_value(b) {
            Ok((value, c)) => Ok(((None, Some(Filter::FieldEquals { field, value })), c)),
            Err(e) => Err(e),
        }
    }
}

// ---------------------------------------------------------------------------------------------
// Statements
// ---------------------------------------------------------------------------------------------
/// What follows `CREATE`.
pub open spec fn p_create(ts: Seq<LexV>, i: int) -> Result<(StmtV, int), ErrV> {
    match p_keyword(ts, i, "table"@, "TABLE"@) {
        Err(e) => Err(e),
        Ok(a) => match p_ident(ts, a, "table name"@) {
            Err(e) => Err(e),
            Ok((table, b)) => if is_word(ts[b].tok, "vector"@) {
                match p_dim(ts, b + 1) {
                    Err(e) => Err(e),
                    Ok((dim, c)) => Ok(
                        (StmtV::CreateTable { table, vector_dim: Some(dim) }, c),
                    ),
                }
            } else {
                Ok((StmtV::CreateTable { table, vector_dim: None }, b))
            },
        },
    }
}

/// `<f32, N>`.
pub open spec fn p_dim(ts: Seq<LexV>, i: int) -> Result<(usize, int), ErrV> {
    match p_mark(ts, i, TokV::Lt, "`<` after VECTOR"@) {
        Err(e) => Err(e),
        Ok(a) => match p_word(ts, a, "f32"@, "vector element type (e.g. `f32`)"@) {
            Err(e) => Err(e),
            Ok(b) => match p_mark(ts, b, TokV::Comma, "`,` in VECTOR declaration"@) {
                Err(e) => Err(e),
                Ok(c) => match p_usize(ts, c, "vector dimension"@) {
                    Err(e) => Err(e),
                    Ok((dim, d)) => if dim == 0 {
                        Err(error_at(ts[d], "vector dimension must be positive"@))
                    } else {
                        match p_mark(ts, d, TokV::Gt, "`>` closing VECTOR declaration"@) {
                            Err(e) => Err(e),
                            Ok(f) => Ok((dim, f)),
                        }
                    },
                },
            },
        },
    }
}

/// What follows `INSERT`.
pub open spec fn p_insert(ts: Seq<LexV>, i: int) -> Result<(StmtV, int), ErrV> {
    match p_keyword(ts, i, "into"@, "INTO"@) {
        Err(e) => Err(e),
        Ok(a) => match p_record_id(ts, a) {
            Err(e) => Err(e),
            Ok((id, b)) => match p_mark(ts, b, TokV::LBrace, "`{` starting record body"@) {
                Err(e) => Err(e),
                Ok(c) => match p_object(ts, c, Seq::empty()) {
                    Err(e) => Err(e),
                    Ok((body, d)) => if is_word(ts[d].tok, "embed"@) {
                        match p_vector(ts, d + 1) {
                            Err(e) => Err(e),
                            Ok((v, f)) => Ok(
                                (
                                    StmtV::Insert(
                                        RecV { id, body, embedding: Some(v), created_at: 0 },
                                    ),
                                    f,
                                ),
                            ),
                        }
                    } else {
                        Ok(
                            (
                                StmtV::Insert(
                                    RecV { id, body, embedding: None, created_at: 0 },
                                ),
                                d,
                            ),
                        )
                    },
                },
            },
        },
    }
}

/// The assignments of a `SET`; `weight` is the weight of the edge, all others are properties.
pub open spec fn p_set(
    ts: Seq<LexV>,
    i: int,
    weight: Option<u32>,
    props: BodyV,
) -> Result<((Option<u32>, BodyV), int), ErrV>
    decreases ts.len() - i,
{
    match p_ident(ts, i, "SET field name"@) {
        Err(e) => Err(e),
        Ok((field, a)) => match p_mark(ts, a, TokV::Eq, "`=` in SET clause"@) {
            Err(e) => Err(e),
            Ok(b) => match p_value(ts, b) {
                Err(e) => Err(e),
                Ok((value, c)) => if text::lower(field) == text::lower("weight"@) && !is_number(
                    value,
                ) {
                    Err(
                        error_at(
                            ts[c],
                            "SET weight expects a number, found "@ + value_named(
                                value,
                                ts[b].form.shown,
                            ),
                        ),
                    )
                } else {
                    let (weight, props) = if text::lower(field) == text::lower("weight"@) {
                        (Some(ts[b].form.single), props)
                    } else {
                        (weight, ordmap::put::<String, ValV>(props, field, value))
                    };
                    if ts[c].tok is Comma && i < c + 1 <= ts.len() {
                        p_set(ts, c + 1, weight, props)
                    } else {
                        Ok(((weight, props), c))
                    }
                },
            },
        },
    }
}

/// A record id in round brackets.
pub open spec fn p_bracketed(ts: Seq<LexV>, i: int, open: Seq<char>, close: Seq<char>) -> Result<
    (RidV, int),
    ErrV,
> {
    match p_mark(ts, i, TokV::LParen, open) {
        Err(e) => Err(e),
        Ok(a) => match p_record_id(ts, a) {
            Err(e) => Err(e),
            Ok((id, b)) => match p_mark(ts, b, TokV::RParen, close) {
                Err(e) => Err(e),
                Ok(c) => Ok((id, c)),
            },
        },
    }
}

/// What follows `RELATE`.
pub open spec fn p_relate(ts: Seq<LexV>, i: int) -> Result<(StmtV, int), ErrV> {
    match p_bracketed(ts, i, "`(` before FROM record"@, "`)` after FROM record"@) {
        Err(e) => Err(e),
        Ok((from, a)) => match p_mark(ts, a, TokV::Arrow, "`->` after FROM record"@) {
            Err(e) => Err(e),
            Ok(b) => match p_ident(ts, past(ts, b, TokV::Colon), "edge name"@) {
                Err(e) => Err(e),
                Ok((name, c)) => match p_mark(ts, c, TokV::Arrow, "`->` before TO record"@) {
                    Err(e) => Err(e),
                    Ok(d) => match p_bracketed(
                        ts,
                        d,
                        "`(` before TO record"@,
                        "`)` after TO record"@,
                    ) {
                        Err(e) => Err(e),
                        Ok((to, f)) => if is_word(ts[f].tok, "set"@) {
                            match p_set(ts, f + 1, None, Seq::empty()) {
                                Err(e) => Err(e),
                                Ok(((weight, props), g)) => Ok(
                                    (
                                        StmtV::Relate(
                                            EdgeV { from, name, to, created_at: 0, weight, props },
                                        ),
                                        g,
                                    ),
                                ),
                            }
                        } else {
                            Ok(
                                (
                                    StmtV::Relate(
                                        EdgeV {
                                            from,
                                            name,
                                            to,
                                            created_at: 0,
                                            weight: None,
                                            props: Seq::empty(),
                                        },
                                    ),
                                    f,
                                ),
                            )
                        },
                    },
                },
            },
        },
    }
}

/// One step of a path behind its arrow.
pub open spec fn p_step(ts: Seq<LexV>, i: int, direction: MatchDirection) -> Result<
    (StepV, int),
    ErrV,
> {
    match p_ident(ts, past(ts, i, TokV::Colon), "edge name after `->`/`<-`"@) {
        Err(e) => Err(e),
        Ok((name, a)) => if is_word(ts[a].tok, "where"@) {
            match p_ident(ts, a + 1, "edge-property field after WHERE"@) {
                Err(e) => Err(e),
                Ok((field, b)) => match p_mark(
                    ts,
                    b,
                    TokV::Eq,
                    "`=` in edge-property filter"@,
                ) {
                    Err(e) => Err(e),
                    Ok(c) => match p_value(ts, c) {
                        Err(e) => Err(e),
                        Ok((value, d)) => Ok(
                            (
                                StepV {
                                    direction,
                                    name,
                                    edge_props: Some(FilV::FieldEquals { field, value }),
                                },
                                d,
                            ),
                        ),
                    },
                },
            }
        } else {
            Ok((StepV { direction, name, edge_props: None }, a))
        },
    }
}

/// The steps of a path, behind `acc`.
pub open spec fn p_steps(ts: Seq<LexV>, i: int, acc: Seq<StepV>) -> Result<
    (Seq<StepV>, int),
    ErrV,
>
    decreases ts.len() - i,
{
    if ts[i].tok is Arrow || ts[i].tok is LeftArrow {
        let direction = if ts[i].tok is Arrow {
            MatchDirection::Out
        } else {
            MatchDirection::In
        };
        match p_step(ts, i + 1, direction) {
            Err(e) => Err(e),
            Ok((step, j)) => if i < j <= ts.len() {
                p_steps(ts, j, acc.push(step))
            } else {
                Ok((acc.push(step), j))
            },
        }
    } else {
        Ok((acc, i))
    }
}

/// What follows `MATCH` or `CLOSURE`, the keyword `kw`.
pub open spec fn p_path(ts: Seq<LexV>, i: int, kw: Seq<char>) -> Result<(PathV, int), ErrV> {
    match p_bracketed(ts, i, "`(` before start record"@, "`)` after start record"@) {
        Err(e) => Err(e),
        Ok((start, a)) => match p_steps(ts, a, Seq::empty()) {
            Err(e) => Err(e),
            Ok((steps, b)) => if steps.len() == 0 {
                Err(error_at(ts[b], kw + " requires at least one edge step (`-> :name`)"@))
            } else {
                Ok((PathV { start, steps }, b))
            },
        },
    }
}

/// The field list of a `SELECT`; which fields it names is not kept.
pub open spec fn p_fields(ts: Seq<LexV>, i: int) -> Result<int, ErrV>
    decreases ts.len() - i,
{
    if ts[i].tok is Star || ts[i].tok is Ident {
        if ts[i + 1].tok is Comma && i + 2 <= ts.len() {
            p_fields(ts, i + 2)
        } else {
            Ok(i + 1)
        }
    } else {
        Err(error_at(ts[i], "expected a field name or `*` in SELECT"@))
    }
}

/// The order that a word names.
pub open spec fn order_named(w: Seq<char>) -> Option<Order> {
    let key = text::lower(w);
    if key == "similarity"@ {
        Some(Order::Similarity)
    } else if key == "salience"@ {
        Some(Order::Salience)
    } else if key == "score"@ {
        Some(Order::Score)
    } else if key == "recency"@ {
        Some(Order::Recency)
    } else if key == "votes"@ {
        Some(Order::Votes)
    } else if key == "feedback"@ {
        Some(Order::Feedback)
    } else {
        None
    }
}

/// What follows `ORDER`.
pub open spec fn p_order(ts: Seq<LexV>, i: int) -> Result<(Order, int), ErrV> {
    match p_keyword(ts, i, "by"@, "BY after ORDER"@) {
        Err(e) => Err(e),
        Ok(a) => {
            let b = if ts[a].tok is DoubleColon || ts[a].tok is Colon {
                a + 1
            } else {
                a
            };
            match p_ident(ts, b, "order key after ORDER BY"@) {
                Err(e) => Err(e),
                Ok((w, c)) => match order_named(w) {
                    Some(order) => Ok((order, c)),
                    None => Err(
                        error_at(
                            ts[c],
                            "unknown ORDER BY key `"@ + w
                                + "` (expected similarity, salience, score, recency, votes, or feedback)"@,
                        ),
                    ),
                },
            }
        },
    }
}

/// The clause of a `SELECT` at `i`, added to `sel`; `None` where no clause starts there. A clause
/// replaces an earlier one of its kind.
#[verifier::opaque]
pub open spec fn p_clause(ts: Seq<LexV>, i: int, sel: SelV) -> Option<Result<(SelV, int), ErrV>> {
    if is_word(ts[i].tok, "where"@) {
        Some(
            match p_where(ts, i + 1) {
                Err(e) => Err(e),
                Ok(((knn, filter), j)) => Ok((SelV { knn, filter, ..sel }, j)),
            },
        )
    } else if is_word(ts[i].tok, "order"@) {
        Some(
            match p_order(ts, i + 1) {
                Err(e) => Err(e),
                Ok((order, j)) => Ok((SelV { order: Some(order), ..sel }, j)),
            },
        )
    } else if is_word(ts[i].tok, "as"@) {
        Some(
            match p_keyword(ts, i + 1, "of"@, "OF after AS"@) {
                Err(e) => Err(e),
                Ok(a) => match p_int(ts, a, "AS OF timestamp"@) {
                    Err(e) => Err(e),
                    Ok((n, j)) => Ok((SelV { as_of: Some(n), ..sel }, j)),
                },
            },
        )
    } else if is_word(ts[i].tok, "limit"@) {
        Some(
            match p_usize(ts, i + 1, "LIMIT count"@) {
                Err(e) => Err(e),
                Ok((n, j)) => Ok((SelV { limit: Some(n), ..sel }, j)),
            },
        )
    } else {
        None
    }
}

/// The clauses of a `SELECT`, in any order, added to `sel`.
pub open spec fn p_clauses(ts: Seq<LexV>, i: int, sel: SelV) -> Result<(SelV, int), ErrV>
    decreases ts.len() - i,
{
    match p_clause(ts, i, sel) {
        None => Ok((sel, i)),
        Some(r) => match r {
            Err(e) => Err(e),
            Ok((next, j)) => if i < j <= ts.len() {
                p_clauses(ts, j, next)
            } else {
                Ok((next, j))
            },
        },
    }
}

/// A selection of all of `table`.
pub open spec fn select_all(table: Seq<char>) -> SelV {
    SelV { table, knn: None, filter: None, order: None, limit: None, as_of: None }
}

/// What follows `SELECT`.
pub open spec fn p_select(ts: Seq<LexV>, i: int) -> Result<(StmtV, int), ErrV> {
    match p_fields(ts, i) {
        Err(e) => Err(e),
        Ok(a) => match p_keyword(ts, a, "from"@, "FROM"@) {
            Err(e) => Err(e),
            Ok(b) => match p_ident(ts, b, "table name after FROM"@) {
                Err(e) => Err(e),
                Ok((table, c)) => match p_clauses(ts, c, select_all(table)) {
                    Err(e) => Err(e),
                    Ok((sel, d)) => Ok((StmtV::Select(sel), d)),
                },
            },
        },
    }
}

/// A statement; its first word says which kind.
#[verifier::opaque]
pub open spec fn p_statement(ts: Seq<LexV>, i: int) -> Result<(StmtV, int), ErrV> {
    let t = ts[i].tok;
    if is_word(t, "create"@) {
        p_create(ts, i + 1)
    } else if is_word(t, "insert"@) {
        p_insert(ts, i + 1)
    } else if is_word(t, "relate"@) {
        p_relate(ts, i + 1)
    } else if is_word(t, "match"@) {
        match p_path(ts, i + 1, "MATCH"@) {
            Err(e) => Err(e),
            Ok((path, j)) => Ok((StmtV::Match(path), j)),
        }
    } else if is_word(t, "closure"@) {
        match p_path(ts, i + 1, "CLOSURE"@) {
            Err(e) => Err(e),
            Ok((path, j)) => Ok((StmtV::Closure(path), j)),
        }
    } else if is_word(t, "select"@) {
        p_select(ts, i + 1)
    } else if is_word(t, "forget"@) {
        match p_record_id(ts, i + 1) {
            Err(e) => Err(e),
            Ok((id, j)) => Ok((StmtV::Forget { id }, j)),
        }
    } else {
        Err(
            expected(
                ts[i],
                "a statement keyword (CREATE, INSERT, RELATE, MATCH, CLOSURE, SELECT, FORGET)"@,
            ),
        )
    }
}

impl Parser {
    fn parse_dim(&self, i: usize) -> (r: Result<(usize, usize), NqlError>)
        requires
            self.ready(i),
        ensures
            parsed(r) == p_dim(self.ts(), i as int),
            leads_on(r, i, self.toks@.len()),
    {
        proof {
            lemma_messages();
        }
        let a = match self.expect_token(i, Token::Lt, "`<` after VECTOR") {
            Ok(j) => j,
            Err(e) => return Err(e),
        };
        let b = match self.expect_word(a, "f32", "vector element type (e.g. `f32`)") {
            Ok(j) => j,
            Err(e) => return Err(e),
        };
        let c = match self.expect_token(b, Token::Comma, "`,` in VECTOR declaration") {
            Ok(j) => j,
            Err(e) => return Err(e),
        };
        let (dim, d) = match self.expect_usize(c, "vector dimension") {
            Ok(p) => p,
            Err(e) => return Err(e),
        };
        if dim == 0 {
            return Err(self.err_at(d, text::owned("vector dimension must be positive")));
        }
        match self.expect_token(d, Token::Gt, "`>` closing VECTOR declaration") {
            Ok(f) => Ok((dim, f)),
            Err(e) => Err(e),
        }
    }

    fn parse_create(&self, i: usize) -> (r: Result<(Statement, usize), NqlError>)
        requires
            self.ready(i),
        ensures
            parsed(r) == p_create(self.ts(), i as int),
            leads_on(r, i, self.toks@.len()),
    {
        let a = match self.expect_keyword(i, "table", "TABLE") {
            Ok(j) => j,
            Err(e) => return Err(e),
        };
        let (table, b) = match self.expect_ident(a, "table name") {
            Ok(p) => p,
            Err(e) => return Err(e),
        };
        if self.word(b, "vector") {
            return match self.parse_dim(b + 1) {
                Ok((dim, c)) => Ok(
                    (Statement::CreateTable { table, vector_dim: Some(dim) }, c),
                ),
                Err(e) => Err(e),
            };
        }
        Ok((Statement::CreateTable { table, vector_dim: None }, b))
    }

    fn parse_insert(&self, i: usize) -> (r: Result<(Statement, usize), NqlError>)
        requires
            self.ready(i),
        ensures
            parsed(r) == p_insert(self.ts(), i as int),
            leads_on(r, i, self.toks@.len()),
    {
        let a = match self.expect_keyword(i, "into", "INTO") {
            Ok(j) => j,
            Err(e) => return Err(e),
        };
        let (id, b) = match self.parse_record_id(a) {
            Ok(p) => p,
            Err(e) => return Err(e),
        };
        let c = match self.expect_token(b, Token::LBrace, "`{` starting record body") {
            Ok(j) => j,
            Err(e) => return Err(e),
        };
        let (body, d) = match self.parse_object_body(c) {
            Ok(p) => p,
            Err(e) => return Err(e),
        };
        if self.word(d, "embed") {
            return match self.parse_float_vector(d + 1) {
                Ok((v, f)) => Ok(
                    (
                        Statement::Insert(Record { id, body, embedding: Some(v), created_at: 0 }),
                        f,
                    ),
                ),
                Err(e) => Err(e),
            };
        }
        Ok((Statement::Insert(Record { id, body, embedding: None, created_at: 0 }), d))
    }

    fn parse_bracketed(&self, i: usize, open: &str, close: &str) -> (r: Result<
        (RecordId, usize),
        NqlError,
    >)
        requires
            self.ready(i),
        ensures
            parsed(r) == p_bracketed(self.ts(), i as int, open@, close@),
            leads_on(r, i, self.toks@.len()),
    {
        let a = match self.expect_token(i, Token::LParen, open) {
            Ok(j) => j,
            Err(e) => return Err(e),
        };
        let (id, b) = match self.parse_record_id(a) {
            Ok(p) => p,
            Err(e) => return Err(e),
        };
        match self.expect_token(b, Token::RParen, close) {
            Ok(c) => Ok((id, c)),
            Err(e) => Err(e),
        }
    }

    fn parse_set(&self, i: usize) -> (r: Result<
        ((Option<u32>, OrdMap<String, Value>), usize),
        NqlError,
    >)
        requires
            self.ready(i),
        ensures
            match r {
                Ok(((weight, props), j)) => i < j < self.toks.len() && p_set(
                    self.ts(),
                    i as int,
                    None,
                    Seq::empty(),
                ) == Ok::<((Option<u32>, BodyV), int), ErrV>(((weight, props@), j as int)),
                Err(e) => sane(e@) && p_set(self.ts(), i as int, None, Seq::empty()) == Err::<
                    ((Option<u32>, BodyV), int),
                    ErrV,
                >(e@),
            },
    {
        let mut weight: Option<u32> = None;
        let mut props: OrdMap<String, Value> = OrdMap::new();
        let mut at: usize = i;
        loop
            invariant
                self.ready(at),
                i <= at,
                p_set(self.ts(), i as int, None, Seq::empty()) == p_set(
                    self.ts(),
                    at as int,
                    weight,
                    props@,
                ),
            decreases self.toks.len() - at,
        {
            proof {
                lemma_messages();
            }
            let (field, a) = match self.expect_ident(at, "SET field name") {
                Ok(p) => p,
                Err(e) => return Err(e),
            };
            let b = match self.expect_token(a, Token::Eq, "`=` in SET clause") {
                Ok(j) => j,
                Err(e) => return Err(e),
            };
            let (value, c) = match self.parse_value(b) {
                Ok(p) => p,
                Err(e) => return Err(e),
            };
            assert(self.ts()[b as int] == self.toks@[b as int]@);
            if text::same_ignoring_case(field.as_str(), "weight") {
                let numeric = match &value {
                    Value::Int(_) => true,
                    Value::Float(_) => true,
                    _ => false,
                };
                if !numeric {
                    let name = value_name(&value, self.toks[b].form.shown.as_str());
                    let m = text::join2("SET weight expects a number, found ", name.as_str());
                    return Err(self.err_at(c, m));
                }
                weight = Some(self.toks[b].form.single);
            } else {
                props.insert(field, value);
            }
            if self.mark(c, Token::Comma) {
                at = c + 1;
            } else {
                return Ok(((weight, props), c));
            }
        }
    }

    fn parse_relate(&self, i: usize) -> (r: Result<(Statement, usize), NqlError>)
        requires
            self.ready(i),
        ensures
            parsed(r) == p_relate(self.ts(), i as int),
            leads_on(r, i, self.toks@.len()),
    {
        let (from, a) = match self.parse_bracketed(
            i,
            "`(` before FROM record",
            "`)` after FROM record",
        ) {
            Ok(p) => p,
            Err(e) => return Err(e),
        };
        let b = match self.expect_token(a, Token::Arrow, "`->` after FROM record") {
            Ok(j) => j,
            Err(e) => return Err(e),
        };
        let named = self.skip_mark(b, Token::Colon);
        let (name, c) = match self.expect_ident(named, "edge name") {
            Ok(p) => p,
            Err(e) => return Err(e),
        };
        let d = match self.expect_token(c, Token::Arrow, "`->` before TO record") {
            Ok(j) => j,
            Err(e) => return Err(e),
        };
        let (to, f) = match self.parse_bracketed(
            d,
            "`(` before TO record",
            "`)` after TO record",
        ) {
            Ok(p) => p,
            Err(e) => return Err(e),
        };
        if self.word(f, "set") {
            return match self.parse_set(f + 1) {
                Ok(((weight, props), g)) => Ok(
                    (
                        Statement::Relate(
                            RelationEdge { from, name, to, created_at: 0, weight, props },
                        ),
                        g,
                    ),
                ),
                Err(e) => Err(e),
            };
        }
        let props: OrdMap<String, Value> = OrdMap::new();
        Ok(
            (
                Statement::Relate(
                    RelationEdge { from, name, to, created_at: 0, weight: None, props },
                ),
                f,
            ),
        )
    }

    fn parse_step(&self, i: usize, direction: MatchDirection) -> (r: Result<
        (MatchStep, usize),
        NqlError,
    >)
        requires
            self.ready(i),
        ensures
            parsed(r) == p_step(self.ts(), i as int, direction),
            leads_on(r, i, self.toks@.len()),
    {
        let named = self.skip_mark(i, Token::Colon);
        let (name, a) = match self.expect_ident(named, "edge name after `->`/`<-`") {
            Ok(p) => p,
            Err(e) => return Err(e),
        };
        if self.word(a, "where") {
            let (field, b) = match self.expect_ident(a + 1, "edge-property field after WHERE") {
                Ok(p) => p,
                Err(e) => return Err(e),
            };
            let c = match self.expect_token(b, Token::Eq, "`=` in edge-property filter") {
                Ok(j) => j,
                Err(e) => return Err(e),
            };
            return match self.parse_value(c) {
                Ok((value, d)) => Ok(
                    (
                        MatchStep {
                            direction,
                            name,
                            edge_props: Some(Filter::FieldEquals { field, value }),
                        },
                        d,
                    ),
                ),
                Err(e) => Err(e),
            };
        }
        Ok((MatchStep { direction, name, edge_props: None }, a))
    }

    fn parse_path(&self, i: usize, kw: &str) -> (r: Result<(MatchPath, usize), NqlError>)
        requires
            self.ready(i),
        ensures
            parsed(r) == p_path(self.ts(), i as int, kw@),
            leads_on(r, i, self.toks@.len()),
    {
        proof {
            lemma_messages();
        }
        let (start, a) = match self.parse_bracketed(
            i,
            "`(` before start record",
            "`)` after start record",
        ) {
            Ok(p) => p,
            Err(e) => return Err(e),
        };
        let mut steps: Vec<MatchStep> = Vec::new();
        let mut at: usize = a;
        assert(ordmap::views(steps@) =~= Seq::<StepV>::empty());
        loop
            invariant_except_break
                p_steps(self.ts(), a as int, Seq::empty()) == p_steps(
                    self.ts(),
                    at as int,
                    ordmap::views(steps@),
                ),
            invariant
                self.ready(at),
                i < a <= at,
                p_bracketed(
                    self.ts(),
                    i as int,
                    "`(` before start record"@,
                    "`)` after start record"@,
                ) == Ok::<(RidV, int), ErrV>((start@, a as int)),
            ensures
                p_steps(self.ts(), a as int, Seq::empty()) == Ok::<(Seq<StepV>, int), ErrV>(
                    (ordmap::views(steps@), at as int),
                ),
            decreases self.toks.len() - at,
        {
            let out = self.mark(at, Token::Arrow);
            let into = self.mark(at, Token::LeftArrow);
            if !out && !into {
                break;
            }
            let direction = if out {
                MatchDirection::Out
            } else {
                MatchDirection::In
            };
            let (step, j) = match self.parse_step(at + 1, direction) {
                Ok(p) => p,
                Err(e) => return Err(e),
            };
            let ghost before = ordmap::views(steps@);
            let ghost sv = step@;
            steps.push(step);
            assert(ordmap::views(steps@) =~= before.push(sv));
            at = j;
        }
        if steps.len() == 0 {
            let m = text::join2(kw, " requires at least one edge step (`-> :name`)");
            return Err(self.err_at(at, m));
        }
        Ok((MatchPath { start, steps }, at))
    }

    fn parse_field_list(&self, i: usize) -> (r: Result<usize, NqlError>)
        requires
            self.ready(i),
        ensures
            passed(r) == p_fields(self.ts(), i as int),
            goes_on(r, i, self.toks@.len()),
    {
        let mut at: usize = i;
        loop
            invariant
                self.ready(at),
                i <= at,
                p_fields(self.ts(), i as int) == p_fields(self.ts(), at as int),
            decreases self.toks.len() - at,
        {
            proof {
                lemma_messages();
            }
            assert(self.ts()[at as int] == self.toks@[at as int]@);
            match &self.toks[at].tok {
                Token::Star => {},
                Token::Ident(_) => {},
                _ => return Err(
                    self.err_at(at, text::owned("expected a field name or `*` in SELECT")),
                ),
            }
            if self.mark(at + 1, Token::Comma) {
                at = at + 2;
            } else {
                return Ok(at + 1);
            }
        }
    }

    fn parse_order(&self, i: usize) -> (r: Result<(Order, usize), NqlError>)
        requires
            self.ready(i),
        ensures
            match r {
                Ok((order, j)) => i < j < self.toks.len() && p_order(self.ts(), i as int) == Ok::<
                    (Order, int),
                    ErrV,
                >((order, j as int)),
                Err(e) => sane(e@) && p_order(self.ts(), i as int) == Err::<(Order, int), ErrV>(e@),
            },
    {
        proof {
            lemma_messages();
        }
        let a = match self.expect_keyword(i, "by", "BY after ORDER") {
            Ok(j) => j,
            Err(e) => return Err(e),
        };
        let b = if self.mark(a, Token::DoubleColon) || self.mark(a, Token::Colon) {
            a + 1
        } else {
            a
        };
        let (w, c) = match self.expect_ident(b, "order key after ORDER BY") {
            Ok(p) => p,
            Err(e) => return Err(e),
        };
        match order_of(w.as_str()) {
            Some(order) => Ok((order, c)),
            None => {
                let m = text::join3(
                    "unknown ORDER BY key `",
                    w.as_str(),
                    "` (expected similarity, salience, score, recency, votes, or feedback)",
                );
                Err(self.err_at(c, m))
            },
        }
    }

    /// The clause at `i`, added to `sel`; `None` where no clause starts there.
    fn parse_clause(&self, i: usize, sel: Select) -> (r: Result<(Select, usize), NqlError>)
        requires
            self.ready(i),
        ensures
            match p_clause(self.ts(), i as int, sel@) {
                None => r matches Ok((same, j)) && j == i && same@ == sel@,
                Some(want) => parsed(r) == want && leads_on(r, i, self.toks@.len()),
            },
    {
        proof {
            reveal(p_clause);
        }
        let mut sel = sel;
        if self.word(i, "where") {
            return match self.parse_where(i + 1) {
                Ok(((knn, filter), j)) => {
                    sel.knn = knn;
                    sel.filter = filter;
                    Ok((sel, j))
                },
                Err(e) => Err(e),
            };
        }
        if self.word(i, "order") {
            return match self.parse_order(i + 1) {
                Ok((order, j)) => {
                    sel.order = Some(order);
                    Ok((sel, j))
                },
                Err(e) => Err(e),
            };
        }
        if self.word(i, "as") {
            let a = match self.expect_keyword(i + 1, "of", "OF after AS") {
                Ok(j) => j,
                Err(e) => return Err(e),
            };
            return match self.expect_int(a, "AS OF timestamp") {
                Ok((n, j)) => {
                    sel.as_of = Some(n);
                    Ok((sel, j))
                },
                Err(e) => Err(e),
            };
        }
        if self.word(i, "limit") {
            return match self.expect_usize(i + 1, "LIMIT count") {
                Ok((n, j)) => {
                    sel.limit = Some(n);
                    Ok((sel, j))
                },
                Err(e) => Err(e),
            };
        }
        Ok((sel, i))
    }

    fn parse_select(&self, i: usize) -> (r: Result<(Statement, usize), NqlError>)
        requires
            self.ready(i),
        ensures
            parsed(r) == p_select(self.ts(), i as int),
            leads_on(r, i, self.toks@.len()),
    {
        let a = match self.parse_field_list(i) {
            Ok(j) => j,
            Err(e) => return Err(e),
        };
        let b = match self.expect_keyword(a, "from", "FROM") {
            Ok(j) => j,
            Err(e) => return Err(e),
        };
        let (table, c) = match self.expect_ident(b, "table name after FROM") {
            Ok(p) => p,
            Err(e) => return Err(e),
        };
        let mut sel = Select {
            table,
            knn: None,
            filter: None,
            order: None,
            limit: None,
            as_of: None,
        };
        let ghost whole = p_select(self.ts(), i as int);
        let mut at: usize = c;
        loop
            invariant
                self.ready(at),
                i < c <= at,
                whole == p_select(self.ts(), i as int),
                whole == (match p_clauses(self.ts(), at as int, sel@) {
                    Err(e) => Err::<(StmtV, int), ErrV>(e),
                    Ok((s, d)) => Ok::<(StmtV, int), ErrV>((StmtV::Select(s), d)),
                }),
            decreases self.toks.len() - at,
        {
            match self.parse_clause(at, sel) {
                Ok((next, j)) => {
                    if j == at {
                        return Ok((Statement::Select(next), at));
                    }
                    sel = next;
                    at = j;
                },
                Err(e) => return Err(e),
            }
        }
    }

    fn parse_statement(&self, i: usize) -> (r: Result<(Statement, usize), NqlError>)
        requires
            self.ready(i),
        ensures
            parsed(r) == p_statement(self.ts(), i as int),
            leads_on(r, i, self.toks@.len()),
    {
        proof {
            reveal(p_statement);
        }
        if self.word(i, "create") {
            return self.parse_create(i + 1);
        }
        if self.word(i, "insert") {
            return self.parse_insert(i + 1);
        }
        if self.word(i, "relate") {
            return self.parse_relate(i + 1);
        }
        if self.word(i, "match") {
            return match self.parse_path(i + 1, "MATCH") {
                Ok((path, j)) => Ok((Statement::Match(path), j)),
                Err(e) => Err(e),
            };
        }
        if self.word(i, "closure") {
            return match self.parse_path(i + 1, "CLOSURE") {
                Ok((path, j)) => Ok((Statement::Closure(path), j)),
                Err(e) => Err(e),
            };
        }
        if self.word(i, "select") {
            return self.parse_select(i + 1);
        }
        if self.word(i, "forget") {
            return match self.parse_record_id(i + 1) {
                Ok((id, j)) => Ok((Statement::Forget { id }, j)),
                Err(e) => Err(e),
            };
        }
        Err(
            self.err_expected(
                i,
                "a statement keyword (CREATE, INSERT, RELATE, MATCH, CLOSURE, SELECT, FORGET)",
            ),
        )
    }
}

/// The order that a word names, in any case.
pub fn order_of(w: &str) -> (r: Option<Order>)
    ensures
        r == order_named(w@),
{
    let key = text::ascii_lower(w);
    if text::text_same(key.as_str(), "similarity") {
        Some(Order::Similarity)
    } else if text::text_same(key.as_str(), "salience") {
        Some(Order::Salience)
    } else if text::text_same(key.as_str(), "score") {
        Some(Order::Score)
    } else if text::text_same(key.as_str(), "recency") {
        Some(Order::Recency)
    } else if text::text_same(key.as_str(), "votes") {
        Some(Order::Votes)
    } else if text::text_same(key.as_str(), "feedback") {
        Some(Order::Feedback)
    } else {
        None
    }
}

// ---------------------------------------------------------------------------------------------
// Programs
// ---------------------------------------------------------------------------------------------
/// The statements from `i` on, behind `acc`; semicolons separate them and may be left out.
pub open spec fn p_program(ts: Seq<LexV>, i: int, acc: Seq<StmtV>) -> Result<Seq<StmtV>, ErrV>
    decreases ts.len() - i,
{
    if ts[i].tok is Eof || !(0 <= i < ts.len()) {
        Ok(acc)
    } else if ts[i].tok is Semi {
        p_program(ts, i + 1, acc)
    } else {
        match p_statement(ts, i) {
            Err(e) => Err(e),
            Ok((s, j)) => if i < j <= ts.len() {
                p_program(ts, j, acc.push(s))
            } else {
                Ok(acc.push(s))
            },
        }
    }
}

/// The plan that a text spells, its numbers in the forms that `g` gives them.
pub open spec fn parse_text(s: Seq<char>, g: spec_fn(NumeralV) -> FormV) -> Result<
    Seq<StmtV>,
    ErrV,
> {
    match lexer::lex(s) {
        Err(e) => Err(e),
        Ok(ts) => p_program(with_forms(ts, g), 0, Seq::empty()),
    }
}

/// The one statement that a text spells.
pub open spec fn parse_one(s: Seq<char>, g: spec_fn(NumeralV) -> FormV) -> Result<StmtV, ErrV> {
    match lexer::lex(s) {
        Err(e) => Err(e),
        Ok(spans) => {
            let ts = with_forms(spans, g);
            match p_statement(ts, 0) {
                Err(e) => Err(e),
                Ok((stmt, j)) => if ts[j].tok is Eof {
                    Ok(stmt)
                } else {
                    Err(error_at(ts[j], "unexpected trailing input after statement"@))
                },
            }
        },
    }
}

fn resolve<F: Fn(Numeral) -> Form>(toks: Vec<Spanned>, forms: &F) -> (r: Parser)
    requires
        number::takes_numerals(*forms),
        lexer::closed(ordmap::views(toks@)),
    ensures
        stream(r.ts()),
        forall|g: spec_fn(NumeralV) -> FormV| #[trigger]
            number::forms_by(*forms, g) ==> r.ts() == with_forms(ordmap::views(toks@), g),
{
    let ghost spans = ordmap::views(toks@);
    let mut toks = toks;
    let mut rev: Vec<Spanned> = Vec::new();
    while toks.len() > 0
        invariant
            spans.len() == toks.len() + rev.len(),
            forall|i: int| 0 <= i < toks.len() ==> (#[trigger] toks@[i])@ == spans[i],
            forall|i: int|
                0 <= i < rev.len() ==> (#[trigger] rev@[i])@ == spans[spans.len() - 1 - i],
        decreases toks.len(),
    {
        match toks.pop() {
            Some(t) => {
                rev.push(t);
            },
            None => {},
        }
    }
    let mut out: Vec<Lexeme> = Vec::new();
    while rev.len() > 0
        invariant
            number::takes_numerals(*forms),
            spans.len() == out.len() + rev.len(),
            forall|i: int|
                0 <= i < rev.len() ==> (#[trigger] rev@[i])@ == spans[spans.len() - 1 - i],
            forall|i: int|
                0 <= i < out.len() ==> (#[trigger] out@[i])@.tok == spans[i].tok && out@[i]@.line
                    == spans[i].line && out@[i]@.col == spans[i].col,
            forall|g: spec_fn(NumeralV) -> FormV, i: int|
                #![trigger number::forms_by(*forms, g), out@[i]]
                number::forms_by(*forms, g) && 0 <= i < out.len() ==> out@[i]@ == with_form(
                    spans[i],
                    g,
                ),
        decreases rev.len(),
    {
        match rev.pop() {
            Some(t) => {
                let x = lexeme(t, forms);
                out.push(x);
            },
            None => {},
        }
    }
    let r = Parser { toks: out };
    proof {
        assert forall|i: int| 0 <= i < r.ts().len() implies (#[trigger] r.ts()[i]).tok
            == spans[i].tok && r.ts()[i].line == spans[i].line && r.ts()[i].col == spans[i].col by {
            assert(r.ts()[i] == out@[i]@);
        }
        assert forall|g: spec_fn(NumeralV) -> FormV| #[trigger]
            number::forms_by(*forms, g) implies r.ts() == with_forms(spans, g) by {
            assert forall|i: int| 0 <= i < r.ts().len() implies #[trigger] r.ts()[i] == with_forms(
                spans,
                g,
            )[i] by {
                assert(r.ts()[i] == out@[i]@);
            }
            assert(r.ts() =~= with_forms(spans, g));
        }
    }
    r
}

/// Parses a whole program, zero or more statements. `forms` gives the floating-point form of each
/// number in it. An error has a message, and a line and a column from 1 on.
pub fn parse<F: Fn(Numeral) -> Form>(input: &str, forms: &F) -> (r: Result<Plan, NqlError>)
    requires
        number::takes_numerals(*forms),
    ensures
        forall|g: spec_fn(NumeralV) -> FormV| #[trigger]
            number::forms_by(*forms, g) ==> match r {
                Ok(plan) => parse_text(input@, g) == Ok::<Seq<StmtV>, ErrV>(
                    ordmap::views(plan@),
                ),
                Err(e) => parse_text(input@, g) == Err::<Seq<StmtV>, ErrV>(e@),
            },
        r matches Err(e) ==> sane(e@),
{
    let toks = match lexer::tokenize(input) {
        Ok(toks) => toks,
        Err(e) => return Err(e),
    };
    let p = resolve(toks, forms);
    let ghost ts = p.ts();
    let mut plan: Plan = Vec::new();
    let mut at: usize = 0;
    assert(ordmap::views(plan@) =~= Seq::<StmtV>::empty());
    loop
        invariant
            p.ready(at),
            ts == p.ts(),
            p_program(ts, 0, Seq::empty()) == p_program(ts, at as int, ordmap::views(plan@)),
            forall|g: spec_fn(NumeralV) -> FormV| #[trigger]
                number::forms_by(*forms, g) ==> parse_text(input@, g) == p_program(
                    ts,
                    0,
                    Seq::empty(),
                ),
        decreases p.toks.len() - at,
    {
        assert(ts[at as int] == p.toks@[at as int]@);
        match &p.toks[at].tok {
            Token::Eof => return Ok(plan),
            _ => {},
        }
        if p.mark(at, Token::Semi) {
            at = at + 1;
        } else {
            let (stmt, j) = match p.parse_statement(at) {
                Ok(q) => q,
                Err(e) => return Err(e),
            };
            let ghost before = ordmap::views(plan@);
            let ghost sv = stmt@;
            plan.push(stmt);
            assert(ordmap::views(plan@) =~= before.push(sv));
            at = j;
        }
    }
}

/// Parses exactly one statement; anything behind it is an error. An error has a message, and a line
/// and a column from 1 on.
pub fn parse_statement<F: Fn(Numeral) -> Form>(input: &str, forms: &F) -> (r: Result<
    Statement,
    NqlError,
>)
    requires
        number::takes_numerals(*forms),
    ensures
        forall|g: spec_fn(NumeralV) -> FormV| #[trigger]
            number::forms_by(*forms, g) ==> match r {
                Ok(stmt) => parse_one(input@, g) == Ok::<StmtV, ErrV>(stmt@),
                Err(e) => parse_one(input@, g) == Err::<StmtV, ErrV>(e@),
            },
        r matches Err(e) ==> sane(e@),
{
    proof {
        lemma_messages();
    }
    let toks = match lexer::tokenize(input) {
        Ok(toks) => toks,
        Err(e) => return Err(e),
    };
    let p = resolve(toks, forms);
    let (stmt, j) = match p.parse_statement(0) {
        Ok(q) => q,
        Err(e) => return Err(e),
    };
    assert(p.ts()[j as int] == p.toks@[j as int]@);
    match &p.toks[j].tok {
        Token::Eof => Ok(stmt),
        _ => Err(p.err_at(j, text::owned("unexpected trailing input after statement"))),
    }
}

// ---------------------------------------------------------------------------------------------
// Laws
// ---------------------------------------------------------------------------------------------
/// Which statement a word starts: one number for each kind, 0 for none.
pub open spec fn kind_started(t: TokV) -> int {
    if is_word(t, "create"@) {
        1
    } else if is_word(t, "insert"@) {
        2
    } else if is_word(t, "relate"@) {
        3
    } else if is_word(t, "match"@) {
        4
    } else if is_word(t, "closure"@) {
        5
    } else if is_word(t, "select"@) {
        6
    } else if is_word(t, "forget"@) {
        7
    } else {
        0
    }
}

/// The number of the kind of a statement.
pub open spec fn kind_of(s: StmtV) -> int {
    match s {
        StmtV::CreateTable { .. } => 1,
        StmtV::Insert(_) => 2,
        StmtV::Relate(_) => 3,
        StmtV::Match(_) => 4,
        StmtV::Closure(_) => 5,
        StmtV::Select(_) => 6,
        StmtV::Forget { .. } => 7,
    }
}

/// A statement is of the kind that its first word names.
pub proof fn law_first_word_decides_the_kind(ts: Seq<LexV>, i: int)
    ensures
        p_statement(ts, i) matches Ok((s, j)) ==> kind_of(s) == kind_started(ts[i].tok),
{
    reveal(p_statement);
}

/// `b` holds the tokens of `a` from `off` on, wherever in the text they stand, up to the `Eof` of
/// `a` at `n`; there `b` has a semicolon or its own `Eof`.
pub open spec fn mirrors(a: Seq<LexV>, b: Seq<LexV>, off: int, n: int) -> bool {
    &&& stream(a)
    &&& n == a.len() - 1
    &&& 0 <= off
    &&& off + n < b.len()
    &&& b[off + n].tok is Semi || b[off + n].tok is Eof
    &&& forall|k: int|
        0 <= k < n ==> (#[trigger] a[k]).tok == b[off + k].tok && a[k].form == b[off + k].form
}

/// The word starts a clause of a `SELECT`.
pub open spec fn starts_clause(t: TokV) -> bool {
    is_word(t, "where"@) || is_word(t, "order"@) || is_word(t, "as"@) || is_word(t, "limit"@)
}

/// As `mirrors`, and behind the tokens of `a` a clause of a `SELECT` may start in `b` too.
pub open spec fn copies(a: Seq<LexV>, b: Seq<LexV>, off: int, n: int) -> bool {
    &&& stream(a)
    &&& n == a.len() - 1
    &&& 0 <= off
    &&& off + n < b.len()
    &&& b[off + n].tok is Semi || b[off + n].tok is Eof || starts_clause(b[off + n].tok)
    &&& forall|k: int|
        0 <= k < n ==> (#[trigger] a[k]).tok == b[off + k].tok && a[k].form == b[off + k].form
}

/// The token of `a` at `i` as `b` holds it.
proof fn lemma_copied_token(a: Seq<LexV>, b: Seq<LexV>, off: int, n: int, i: int)
    requires
        copies(a, b, off, n),
        0 <= i <= n,
    ensures
        i < n ==> a[i].tok == b[off + i].tok && a[i].form == b[off + i].form && !(a[i].tok is Eof),
        i == n ==> a[i].tok is Eof && !is_word(b[off + i].tok, "and"@) && !is_word(
            b[off + i].tok,
            "k"@,
        ) && (b[off + i].tok is Semi || b[off + i].tok is Eof || b[off + i].tok is Ident),
{
    assert(a[i].line >= 1);
    assert(a[n].tok is Eof);
    if i == n {
        lemma_clause_words(b[off + i].tok);
    }
}

/// No word that starts a clause is `AND` or `k`.
proof fn lemma_clause_words(t: TokV)
    ensures
        starts_clause(t) ==> !is_word(t, "and"@) && !is_word(t, "k"@),
{
    reveal_strlit("and");
    reveal_strlit("k");
    reveal_strlit("where");
    reveal_strlit("order");
    reveal_strlit("as");
    reveal_strlit("limit");
    if let TokV::Ident(w) = t {
        assert(text::lower(w).len() == w.len());
        assert(text::lower("and"@).len() == 3);
        assert(text::lower("k"@).len() == 1);
        assert(text::lower("where"@).len() == 5);
        assert(text::lower("order"@).len() == 5);
        assert(text::lower("as"@).len() == 2);
        assert(text::lower("limit"@).len() == 5);
    }
}

/// The token of `a` at `i` as `b` holds it.
proof fn lemma_mirror_token(a: Seq<LexV>, b: Seq<LexV>, off: int, n: int, i: int)
    requires
        mirrors(a, b, off, n),
        0 <= i <= n,
    ensures
        i < n ==> a[i].tok == b[off + i].tok && a[i].form == b[off + i].form && !(a[i].tok is Eof),
        i == n ==> a[i].tok is Eof && (b[off + i].tok is Semi || b[off + i].tok is Eof),
{
    assert(a[i].line >= 1);
    assert(a[n].tok is Eof);
}

proof fn lemma_mirror_value(a: Seq<LexV>, b: Seq<LexV>, off: int, n: int, i: int)
    requires
        copies(a, b, off, n),
        0 <= i <= n,
    ensures
        p_value(a, i) matches Ok((v, j)) ==> i < j <= n && p_value(b, off + i) == Ok::<
            (ValV, int),
            ErrV,
        >((v, off + j)),
    decreases a.len() - i, 0int,
{
    lemma_copied_token(a, b, off, n, i);
    if a[i].tok is LBrace {
        lemma_mirror_object(a, b, off, n, i + 1, Seq::empty());
    } else if a[i].tok is LBracket {
        lemma_mirror_array(a, b, off, n, i + 1, Seq::empty(), Seq::empty());
    }
}

proof fn lemma_mirror_object(a: Seq<LexV>, b: Seq<LexV>, off: int, n: int, i: int, acc: BodyV)
    requires
        copies(a, b, off, n),
        0 <= i <= n,
    ensures
        p_object(a, i, acc) matches Ok((v, j)) ==> i < j <= n && p_object(b, off + i, acc) == Ok::<
            (BodyV, int),
            ErrV,
        >((v, off + j)),
    decreases a.len() - i, 1int,
{
    lemma_copied_token(a, b, off, n, i);
    match a[i].tok {
        TokV::Str(key) => {
            lemma_mirror_field(a, b, off, n, i, key, acc);
        },
        TokV::Ident(key) => {
            lemma_mirror_field(a, b, off, n, i, key, acc);
        },
        _ => {},
    }
}

proof fn lemma_mirror_field(a: Seq<LexV>, b: Seq<LexV>, off: int, n: int, i: int, key: Seq<char>, acc: BodyV)
    requires
        copies(a, b, off, n),
        0 <= i < n,
    ensures
        p_field(a, i, key, acc) matches Ok((v, j)) ==> i < j <= n && p_field(b, off + i, key, acc) == Ok::<
            (BodyV, int),
            ErrV,
        >((v, off + j)),
    decreases a.len() - i, 0int,
{
    if i < n {
        lemma_copied_token(a, b, off, n, i + 1);
        if a[i + 1].tok is Colon {
            lemma_mirror_value(a, b, off, n, i + 2);
            if let Ok((v, k)) = p_value(a, i + 2) {
                lemma_copied_token(a, b, off, n, k);
                if a[k].tok is Comma {
                    lemma_mirror_object(
                        a,
                        b,
                        off,
                        n,
                        k + 1,
                        ordmap::put::<String, ValV>(acc, key, v),
                    );
                }
            }
        }
    }
}

proof fn lemma_mirror_array(a: Seq<LexV>, b: Seq<LexV>, off: int, n: int, i: int, elems: Seq<ValV>, singles: Seq<u32>)
    requires
        copies(a, b, off, n),
        0 <= i <= n,
    ensures
        p_array(a, i, elems, singles) matches Ok((v, j)) ==> i < j <= n && p_array(b, off + i, elems, singles) == Ok::<
            (ValV, int),
            ErrV,
        >((v, off + j)),
    decreases a.len() - i, 1int,
{
    lemma_copied_token(a, b, off, n, i);
    if !(a[i].tok is RBracket) {
        lemma_mirror_value(a, b, off, n, i);
        if let Ok((v, k)) = p_value(a, i) {
            lemma_copied_token(a, b, off, n, k);
            if a[k].tok is Comma {
                lemma_mirror_array(
                    a,
                    b,
                    off,
                    n,
                    k + 1,
                    elems.push(v),
                    singles.push(a[i].form.single),
                );
            }
        }
    }
}

proof fn lemma_mirror_numbers(a: Seq<LexV>, b: Seq<LexV>, off: int, n: int, i: int, acc: Seq<u32>)
    requires
        copies(a, b, off, n),
        0 <= i <= n,
    ensures
        p_numbers(a, i, acc) matches Ok((v, j)) ==> i < j <= n && p_numbers(b, off + i, acc) == Ok::<
            (Seq<u32>, int),
            ErrV,
        >((v, off + j)),
    decreases a.len() - i,
{
    lemma_copied_token(a, b, off, n, i);
    if a[i].tok is Int || a[i].tok is Float {
        lemma_copied_token(a, b, off, n, i + 1);
        if a[i + 1].tok is Comma {
            lemma_mirror_numbers(a, b, off, n, i + 2, acc.push(a[i].form.single));
        }
    }
}

proof fn lemma_mirror_vector(a: Seq<LexV>, b: Seq<LexV>, off: int, n: int, i: int)
    requires
        copies(a, b, off, n),
        0 <= i <= n,
    ensures
        p_vector(a, i) matches Ok((v, j)) ==> i < j <= n && p_vector(b, off + i) == Ok::<
            (Seq<u32>, int),
            ErrV,
        >((v, off + j)),
{
    lemma_copied_token(a, b, off, n, i);
    if a[i].tok is LBracket {
        lemma_mirror_numbers(a, b, off, n, i + 1, Seq::empty());
    }
}

proof fn lemma_mirror_record_id(a: Seq<LexV>, b: Seq<LexV>, off: int, n: int, i: int)
    requires
        mirrors(a, b, off, n),
        0 <= i <= n,
    ensures
        p_record_id(a, i) matches Ok((v, j)) ==> i < j <= n && p_record_id(b, off + i) == Ok::<
            (RidV, int),
            ErrV,
        >((v, off + j)),
{
    lemma_mirror_token(a, b, off, n, i);
    if a[i].tok is Ident {
        lemma_mirror_token(a, b, off, n, i + 1);
        if a[i + 1].tok is Colon {
            lemma_mirror_token(a, b, off, n, i + 2);
        }
    }
}

proof fn lemma_mirror_bracketed(a: Seq<LexV>, b: Seq<LexV>, off: int, n: int, i: int, open: Seq<char>, close: Seq<char>)
    requires
        mirrors(a, b, off, n),
        0 <= i <= n,
    ensures
        p_bracketed(a, i, open, close) matches Ok((v, j)) ==> i < j <= n && p_bracketed(b, off + i, open, close) == Ok::<
            (RidV, int),
            ErrV,
        >((v, off + j)),
{
    lemma_mirror_token(a, b, off, n, i);
    if a[i].tok is LParen {
        lemma_mirror_record_id(a, b, off, n, i + 1);
        if let Ok((id, k)) = p_record_id(a, i + 1) {
            lemma_mirror_token(a, b, off, n, k);
        }
    }
}

proof fn lemma_mirror_bm25(a: Seq<LexV>, b: Seq<LexV>, off: int, n: int, i: int)
    requires
        copies(a, b, off, n),
        0 <= i <= n,
    ensures
        p_bm25(a, i) matches Ok((v, j)) ==> i < j <= n && p_bm25(b, off + i) == Ok::<
            (FilV, int),
            ErrV,
        >((v, off + j)),
{
    reveal(p_bm25);
    lemma_copied_token(a, b, off, n, i);
    if a[i].tok is DoubleColon {
        lemma_copied_token(a, b, off, n, i + 1);
        if a[i + 1].tok is Ident {
            lemma_copied_token(a, b, off, n, i + 2);
            if a[i + 2].tok is LParen {
                lemma_copied_token(a, b, off, n, i + 3);
                if a[i + 3].tok is Ident {
                    lemma_copied_token(a, b, off, n, i + 4);
                    if a[i + 4].tok is Comma {
                        lemma_mirror_value(a, b, off, n, i + 5);
                        if let Ok((v, f)) = p_value(a, i + 5) {
                            lemma_copied_token(a, b, off, n, f);
                            if a[f].tok is RParen {
                                if let TokV::Ident(field) = a[i + 3].tok {
                                    if let ValV::Str(query) = v {
                                        lemma_mirror_bm25_cap(a, b, off, n, f + 1, field, query);
                                    }
                                }
                            }
                        }
                    }
                }
            }
        }
    }
}

proof fn lemma_mirror_bm25_cap(a: Seq<LexV>, b: Seq<LexV>, off: int, n: int, i: int, field: Seq<char>, query: Seq<char>)
    requires
        copies(a, b, off, n),
        0 <= i <= n,
    ensures
        p_bm25_cap(a, i, field, query) matches Ok((v, j)) ==> i <= j <= n && p_bm25_cap(b, off + i, field, query) == Ok::<
            (FilV, int),
            ErrV,
        >((v, off + j)),
{
    lemma_copied_token(a, b, off, n, i);
    if is_word(a[i].tok, "and"@) {
        lemma_copied_token(a, b, off, n, i + 1);
        if is_word(a[i + 1].tok, "k"@) {
            lemma_copied_token(a, b, off, n, i + 2);
            if a[i + 2].tok is Eq {
                lemma_copied_token(a, b, off, n, i + 3);
            }
        }
    }
}

proof fn lemma_mirror_knn_query(a: Seq<LexV>, b: Seq<LexV>, off: int, n: int, i: int)
    requires
        copies(a, b, off, n),
        0 <= i <= n,
    ensures
        p_knn_query(a, i) matches Ok((v, j)) ==> i < j <= n && p_knn_query(b, off + i) == Ok::<
            (Seq<u32>, int),
            ErrV,
        >((v, off + j)),
{
    lemma_copied_token(a, b, off, n, i);
    if a[i].tok is Ident {
        lemma_copied_token(a, b, off, n, i + 1);
        if a[i + 1].tok is DoubleColon {
            lemma_copied_token(a, b, off, n, i + 2);
            if a[i + 2].tok is Ident {
                lemma_copied_token(a, b, off, n, i + 3);
                if a[i + 3].tok is LParen {
                    lemma_copied_token(a, b, off, n, i + 4);
                    if a[i + 4].tok is Ident {
                        lemma_copied_token(a, b, off, n, i + 5);
                        if a[i + 5].tok is Comma {
                            lemma_mirror_vector(a, b, off, n, i + 6);
                            if let Ok((v, h)) = p_vector(a, i + 6) {
                                lemma_copied_token(a, b, off, n, h);
                            }
                        }
                    }
                }
            }
        }
    }
}

proof fn lemma_mirror_knn(a: Seq<LexV>, b: Seq<LexV>, off: int, n: int, i: int)
    requires
        copies(a, b, off, n),
        0 <= i <= n,
    ensures
        p_knn(a, i) matches Ok((v, j)) ==> i < j <= n && p_knn(b, off + i) == Ok::<
            (KnnV, int),
            ErrV,
        >((v, off + j)),
{
    reveal(p_knn);
    lemma_mirror_knn_query(a, b, off, n, i);
    if let Ok((query, k)) = p_knn_query(a, i) {
        lemma_copied_token(a, b, off, n, k);
        if is_word(a[k].tok, "and"@) {
            lemma_copied_token(a, b, off, n, k + 1);
            if a[k + 1].tok is Ident {
                lemma_copied_token(a, b, off, n, k + 2);
                if a[k + 2].tok is Eq {
                    lemma_copied_token(a, b, off, n, k + 3);
                }
            }
        }
    }
}

proof fn lemma_mirror_where(a: Seq<LexV>, b: Seq<LexV>, off: int, n: int, i: int)
    requires
        copies(a, b, off, n),
        0 <= i <= n,
    ensures
        p_where(a, i) matches Ok((v, j)) ==> i < j <= n && p_where(b, off + i) == Ok::<
            ((Option<KnnV>, Option<FilV>), int),
            ErrV,
        >((v, off + j)),
{
    reveal(p_where);
    lemma_copied_token(a, b, off, n, i);
    if a[i].tok is DoubleColon {
        lemma_mirror_bm25(a, b, off, n, i);
        if let Ok((filter, k)) = p_bm25(a, i) {
            lemma_copied_token(a, b, off, n, k);
            if is_word(a[k].tok, "and"@) {
                lemma_mirror_knn(a, b, off, n, k + 1);
            }
        }
    } else if is_word(a[i].tok, "vector"@) {
        lemma_mirror_knn(a, b, off, n, i);
        if let Ok((knn, k)) = p_knn(a, i) {
            lemma_copied_token(a, b, off, n, k);
            if is_word(a[k].tok, "and"@) {
                lemma_mirror_bm25(a, b, off, n, k + 1);
            }
        }
    } else if a[i].tok is Ident {
        lemma_copied_token(a, b, off, n, i + 1);
        if is_word(a[i + 1].tok, "is"@) {
            lemma_copied_token(a, b, off, n, i + 2);
            if is_word(a[i + 2].tok, "not"@) {
                lemma_copied_token(a, b, off, n, i + 3);
            }
        } else if a[i + 1].tok is Eq {
            lemma_mirror_value(a, b, off, n, i + 2);
        }
    }
}

proof fn lemma_mirror_dim(a: Seq<LexV>, b: Seq<LexV>, off: int, n: int, i: int)
    requires
        mirrors(a, b, off, n),
        0 <= i <= n,
    ensures
        p_dim(a, i) matches Ok((v, j)) ==> i < j <= n && p_dim(b, off + i) == Ok::<
            (usize, int),
            ErrV,
        >((v, off + j)),
{
    lemma_mirror_token(a, b, off, n, i);
    if a[i].tok is Lt {
        lemma_mirror_token(a, b, off, n, i + 1);
        if a[i + 1].tok is Ident {
            lemma_mirror_token(a, b, off, n, i + 2);
            if a[i + 2].tok is Comma {
                lemma_mirror_token(a, b, off, n, i + 3);
                if a[i + 3].tok is Int {
                    lemma_mirror_token(a, b, off, n, i + 4);
                }
            }
        }
    }
}

proof fn lemma_mirror_create(a: Seq<LexV>, b: Seq<LexV>, off: int, n: int, i: int)
    requires
        mirrors(a, b, off, n),
        0 <= i <= n,
    ensures
        p_create(a, i) matches Ok((v, j)) ==> i < j <= n && p_create(b, off + i) == Ok::<
            (StmtV, int),
            ErrV,
        >((v, off + j)),
{
    lemma_mirror_token(a, b, off, n, i);
    if is_word(a[i].tok, "table"@) {
        lemma_mirror_token(a, b, off, n, i + 1);
        if a[i + 1].tok is Ident {
            lemma_mirror_token(a, b, off, n, i + 2);
            if is_word(a[i + 2].tok, "vector"@) {
                lemma_mirror_dim(a, b, off, n, i + 3);
            }
        }
    }
}

proof fn lemma_mirror_insert(a: Seq<LexV>, b: Seq<LexV>, off: int, n: int, i: int)
    requires
        mirrors(a, b, off, n),
        0 <= i <= n,
    ensures
        p_insert(a, i) matches Ok((v, j)) ==> i < j <= n && p_insert(b, off + i) == Ok::<
            (StmtV, int),
            ErrV,
        >((v, off + j)),
{
    lemma_mirror_token(a, b, off, n, i);
    if is_word(a[i].tok, "into"@) {
        lemma_mirror_record_id(a, b, off, n, i + 1);
        if let Ok((id, k)) = p_record_id(a, i + 1) {
            lemma_mirror_token(a, b, off, n, k);
            if a[k].tok is LBrace {
                lemma_mirror_object(a, b, off, n, k + 1, Seq::empty());
                if let Ok((body, d)) = p_object(a, k + 1, Seq::empty()) {
                    lemma_mirror_token(a, b, off, n, d);
                    if is_word(a[d].tok, "embed"@) {
                        lemma_mirror_vector(a, b, off, n, d + 1);
                    }
                }
            }
        }
    }
}

proof fn lemma_mirror_set(a: Seq<LexV>, b: Seq<LexV>, off: int, n: int, i: int, weight: Option<u32>, props: BodyV)
    requires
        mirrors(a, b, off, n),
        0 <= i <= n,
    ensures
        p_set(a, i, weight, props) matches Ok((v, j)) ==> i < j <= n && p_set(b, off + i, weight, props) == Ok::<
            ((Option<u32>, BodyV), int),
            ErrV,
        >((v, off + j)),
    decreases a.len() - i,
{
    lemma_mirror_token(a, b, off, n, i);
    if let TokV::Ident(field) = a[i].tok {
        lemma_mirror_token(a, b, off, n, i + 1);
        if a[i + 1].tok is Eq {
            lemma_mirror_token(a, b, off, n, i + 2);
            lemma_mirror_value(a, b, off, n, i + 2);
            if let Ok((value, c)) = p_value(a, i + 2) {
                lemma_mirror_token(a, b, off, n, c);
                if a[c].tok is Comma {
                    if text::lower(field) == text::lower("weight"@) {
                        lemma_mirror_set(
                            a,
                            b,
                            off,
                            n,
                            c + 1,
                            Some(a[i + 2].form.single),
                            props,
                        );
                    } else {
                        lemma_mirror_set(
                            a,
                            b,
                            off,
                            n,
                            c + 1,
                            weight,
                            ordmap::put::<String, ValV>(props, field, value),
                        );
                    }
                }
            }
        }
    }
}

proof fn lemma_mirror_named(a: Seq<LexV>, b: Seq<LexV>, off: int, n: int, i: int, what: Seq<char>)
    requires
        mirrors(a, b, off, n),
        0 <= i <= n,
    ensures
        p_ident(a, i, what) matches Ok((v, j)) ==> i < j <= n && p_ident(b, off + i, what) == Ok::<
            (Seq<char>, int),
            ErrV,
        >((v, off + j)),
{
    lemma_mirror_token(a, b, off, n, i);
}

proof fn lemma_mirror_past(a: Seq<LexV>, b: Seq<LexV>, off: int, n: int, i: int)
    requires
        mirrors(a, b, off, n),
        0 <= i <= n,
    ensures
        i <= past(a, i, TokV::Colon) <= n,
        past(b, off + i, TokV::Colon) == off + past(a, i, TokV::Colon),
{
    lemma_mirror_token(a, b, off, n, i);
}

proof fn lemma_mirror_relate(a: Seq<LexV>, b: Seq<LexV>, off: int, n: int, i: int)
    requires
        mirrors(a, b, off, n),
        0 <= i <= n,
    ensures
        p_relate(a, i) matches Ok((v, j)) ==> i < j <= n && p_relate(b, off + i) == Ok::<
            (StmtV, int),
            ErrV,
        >((v, off + j)),
{
    let (open, close) = ("`(` before FROM record"@, "`)` after FROM record"@);
    let (open2, close2) = ("`(` before TO record"@, "`)` after TO record"@);
    lemma_mirror_bracketed(a, b, off, n, i, open, close);
    if let Ok((from, p)) = p_bracketed(a, i, open, close) {
        lemma_mirror_token(a, b, off, n, p);
        if a[p].tok is Arrow {
            lemma_mirror_past(a, b, off, n, p + 1);
            let q = past(a, p + 1, TokV::Colon);
            lemma_mirror_named(a, b, off, n, q, "edge name"@);
            if let Ok((name, c)) = p_ident(a, q, "edge name"@) {
                lemma_mirror_token(a, b, off, n, c);
                if a[c].tok is Arrow {
                    lemma_mirror_bracketed(a, b, off, n, c + 1, open2, close2);
                    if let Ok((to, f)) = p_bracketed(a, c + 1, open2, close2) {
                        lemma_mirror_token(a, b, off, n, f);
                        if is_word(a[f].tok, "set"@) {
                            lemma_mirror_set(a, b, off, n, f + 1, None, Seq::empty());
                        }
                    }
                }
            }
        }
    }
}

proof fn lemma_mirror_step(a: Seq<LexV>, b: Seq<LexV>, off: int, n: int, i: int, direction: MatchDirection)
    requires
        mirrors(a, b, off, n),
        0 <= i <= n,
    ensures
        p_step(a, i, direction) matches Ok((v, j)) ==> i < j <= n && p_step(b, off + i, direction) == Ok::<
            (StepV, int),
            ErrV,
        >((v, off + j)),
{
    let what = "edge name after `->`/`<-`"@;
    lemma_mirror_past(a, b, off, n, i);
    let q = past(a, i, TokV::Colon);
    lemma_mirror_named(a, b, off, n, q, what);
    if let Ok((name, k)) = p_ident(a, q, what) {
        lemma_mirror_token(a, b, off, n, k);
        if is_word(a[k].tok, "where"@) {
            lemma_mirror_token(a, b, off, n, k + 1);
            if a[k + 1].tok is Ident {
                lemma_mirror_token(a, b, off, n, k + 2);
                if a[k + 2].tok is Eq {
                    lemma_mirror_value(a, b, off, n, k + 3);
                }
            }
        }
    }
}

proof fn lemma_mirror_steps(a: Seq<LexV>, b: Seq<LexV>, off: int, n: int, i: int, acc: Seq<StepV>)
    requires
        mirrors(a, b, off, n),
        0 <= i <= n,
    ensures
        p_steps(a, i, acc) matches Ok((v, j)) ==> i <= j <= n && p_steps(b, off + i, acc) == Ok::<
            (Seq<StepV>, int),
            ErrV,
        >((v, off + j)),
    decreases a.len() - i,
{
    lemma_mirror_token(a, b, off, n, i);
    if a[i].tok is Arrow || a[i].tok is LeftArrow {
        let direction = if a[i].tok is Arrow {
            MatchDirection::Out
        } else {
            MatchDirection::In
        };
        lemma_mirror_step(a, b, off, n, i + 1, direction);
        if let Ok((step, k)) = p_step(a, i + 1, direction) {
            lemma_mirror_steps(a, b, off, n, k, acc.push(step));
        }
    }
}

proof fn lemma_mirror_path(a: Seq<LexV>, b: Seq<LexV>, off: int, n: int, i: int, kw: Seq<char>)
    requires
        mirrors(a, b, off, n),
        0 <= i <= n,
    ensures
        p_path(a, i, kw) matches Ok((v, j)) ==> i < j <= n && p_path(b, off + i, kw) == Ok::<
            (PathV, int),
            ErrV,
        >((v, off + j)),
{
    let (open, close) = ("`(` before start record"@, "`)` after start record"@);
    lemma_mirror_bracketed(a, b, off, n, i, open, close);
    if let Ok((start, k)) = p_bracketed(a, i, open, close) {
        lemma_mirror_steps(a, b, off, n, k, Seq::empty());
    }
}

proof fn lemma_mirror_fields(a: Seq<LexV>, b: Seq<LexV>, off: int, n: int, i: int)
    requires
        copies(a, b, off, n),
        0 <= i <= n,
    ensures
        p_fields(a, i) matches Ok(j) ==> i < j <= n && p_fields(b, off + i) == Ok::<
            int,
            ErrV,
        >(off + j),
    decreases a.len() - i,
{
    lemma_copied_token(a, b, off, n, i);
    if a[i].tok is Star || a[i].tok is Ident {
        lemma_copied_token(a, b, off, n, i + 1);
        if a[i + 1].tok is Comma {
            lemma_mirror_fields(a, b, off, n, i + 2);
        }
    }
}

proof fn lemma_mirror_order(a: Seq<LexV>, b: Seq<LexV>, off: int, n: int, i: int)
    requires
        copies(a, b, off, n),
        0 <= i <= n,
    ensures
        p_order(a, i) matches Ok((v, j)) ==> i < j <= n && p_order(b, off + i) == Ok::<
            (Order, int),
            ErrV,
        >((v, off + j)),
{
    lemma_copied_token(a, b, off, n, i);
    if is_word(a[i].tok, "by"@) {
        lemma_copied_token(a, b, off, n, i + 1);
        if a[i + 1].tok is DoubleColon || a[i + 1].tok is Colon {
            lemma_copied_token(a, b, off, n, i + 2);
        }
    }
}

proof fn lemma_mirror_clause(a: Seq<LexV>, b: Seq<LexV>, off: int, n: int, i: int, sel: SelV)
    requires
        mirrors(a, b, off, n),
        0 <= i <= n,
    ensures
        p_clause(a, i, sel) is None ==> p_clause(b, off + i, sel) is None,
        p_clause(a, i, sel) matches Some(Ok((v, j))) ==> i < j <= n && p_clause(b, off + i, sel)
            == Some(Ok::<(SelV, int), ErrV>((v, off + j))),
{
    reveal(p_clause);
    lemma_mirror_token(a, b, off, n, i);
    if is_word(a[i].tok, "where"@) {
        lemma_mirror_where(a, b, off, n, i + 1);
    } else if is_word(a[i].tok, "order"@) {
        lemma_mirror_order(a, b, off, n, i + 1);
    } else if is_word(a[i].tok, "as"@) {
        lemma_mirror_token(a, b, off, n, i + 1);
        if is_word(a[i + 1].tok, "of"@) {
            lemma_mirror_token(a, b, off, n, i + 2);
        }
    } else if is_word(a[i].tok, "limit"@) {
        lemma_mirror_token(a, b, off, n, i + 1);
    }
}

proof fn lemma_mirror_clauses(a: Seq<LexV>, b: Seq<LexV>, off: int, n: int, i: int, sel: SelV)
    requires
        mirrors(a, b, off, n),
        0 <= i <= n,
    ensures
        p_clauses(a, i, sel) matches Ok((v, j)) ==> i <= j <= n && p_clauses(b, off + i, sel)
            == Ok::<(SelV, int), ErrV>((v, off + j)),
    decreases a.len() - i,
{
    lemma_mirror_clause(a, b, off, n, i, sel);
    if let Some(Ok((next, k))) = p_clause(a, i, sel) {
        lemma_mirror_clauses(a, b, off, n, k, next);
    }
}

proof fn lemma_mirror_select(a: Seq<LexV>, b: Seq<LexV>, off: int, n: int, i: int)
    requires
        mirrors(a, b, off, n),
        0 <= i <= n,
    ensures
        p_select(a, i) matches Ok((v, j)) ==> i < j <= n && p_select(b, off + i) == Ok::<
            (StmtV, int),
            ErrV,
        >((v, off + j)),
{
    lemma_mirror_fields(a, b, off, n, i);
    if let Ok(p) = p_fields(a, i) {
        lemma_mirror_token(a, b, off, n, p);
        if is_word(a[p].tok, "from"@) {
            lemma_mirror_token(a, b, off, n, p + 1);
            if let TokV::Ident(table) = a[p + 1].tok {
                lemma_mirror_clauses(a, b, off, n, p + 2, select_all(table));
            }
        }
    }
}

proof fn lemma_mirror_statement(a: Seq<LexV>, b: Seq<LexV>, off: int, n: int, i: int)
    requires
        mirrors(a, b, off, n),
        0 <= i <= n,
    ensures
        p_statement(a, i) matches Ok((v, j)) ==> i < j <= n && p_statement(b, off + i) == Ok::<
            (StmtV, int),
            ErrV,
        >((v, off + j)),
{
    reveal(p_statement);
    lemma_mirror_token(a, b, off, n, i);
    let t = a[i].tok;
    if is_word(t, "create"@) {
        lemma_mirror_create(a, b, off, n, i + 1);
    } else if is_word(t, "insert"@) {
        lemma_mirror_insert(a, b, off, n, i + 1);
    } else if is_word(t, "relate"@) {
        lemma_mirror_relate(a, b, off, n, i + 1);
    } else if is_word(t, "match"@) {
        lemma_mirror_path(a, b, off, n, i + 1, "MATCH"@);
    } else if is_word(t, "closure"@) {
        lemma_mirror_path(a, b, off, n, i + 1, "CLOSURE"@);
    } else if is_word(t, "select"@) {
        lemma_mirror_select(a, b, off, n, i + 1);
    } else if is_word(t, "forget"@) {
        lemma_mirror_record_id(a, b, off, n, i + 1);
    }
}

/// Where `a` parses to a plan, `b` parses to the same statements from `off` on, and goes on behind
/// them.
proof fn lemma_mirror_program(
    a: Seq<LexV>,
    b: Seq<LexV>,
    off: int,
    n: int,
    i: int,
    acc: Seq<StmtV>,
    acc2: Seq<StmtV>,
)
    requires
        mirrors(a, b, off, n),
        0 <= i <= n,
    ensures
        p_program(a, i, acc) matches Ok(plan) ==> acc.len() <= plan.len() && plan.take(
            acc.len() as int,
        ) == acc && p_program(b, off + i, acc2) == p_program(
            b,
            off + n,
            acc2 + plan.skip(acc.len() as int),
        ),
    decreases a.len() - i,
{
    lemma_mirror_token(a, b, off, n, i);
    if i == n {
        assert(acc.take(acc.len() as int) =~= acc);
        assert(acc2 + acc.skip(acc.len() as int) =~= acc2);
    } else if a[i].tok is Semi {
        lemma_mirror_program(a, b, off, n, i + 1, acc, acc2);
    } else {
        lemma_mirror_statement(a, b, off, n, i);
        if let Ok((s, j)) = p_statement(a, i) {
            lemma_mirror_program(a, b, off, n, j, acc.push(s), acc2.push(s));
            if let Ok(plan) = p_program(a, i, acc) {
                let m = acc.len() as int;
                assert(plan.take(m + 1)[m] == plan[m]);
                assert(acc.push(s)[m] == s);
                assert(plan.take(m) =~= plan.take(m + 1).take(m));
                assert(acc.push(s).take(m) =~= acc);
                assert(acc2 + plan.skip(m) =~= acc2.push(s) + plan.skip(m + 1));
            }
        }
    }
}

/// Two programs joined by a semicolon parse to the statements of the first followed by those of the
/// second: no statement is lost, added, or read differently for what stands around it.
pub proof fn law_programs_join(
    a: Seq<LexV>,
    b: Seq<LexV>,
    whole: Seq<LexV>,
    semi: LexV,
    first: Seq<StmtV>,
    second: Seq<StmtV>,
)
    requires
        stream(a),
        stream(b),
        semi.tok is Semi,
        whole.len() == a.len() + b.len(),
        forall|k: int|
            0 <= k < whole.len() ==> {
                let t = if k < a.len() - 1 {
                    a[k]
                } else if k == a.len() - 1 {
                    semi
                } else {
                    b[k - a.len()]
                };
                (#[trigger] whole[k]).tok == t.tok && whole[k].form == t.form
            },
        p_program(a, 0, Seq::empty()) == Ok::<Seq<StmtV>, ErrV>(first),
        p_program(b, 0, Seq::empty()) == Ok::<Seq<StmtV>, ErrV>(second),
    ensures
        p_program(whole, 0, Seq::empty()) == Ok::<Seq<StmtV>, ErrV>(first + second),
{
    let n = a.len() - 1;
    let m = b.len() - 1;
    let none = Seq::<StmtV>::empty();
    assert forall|k: int| 0 <= k < n implies (#[trigger] a[k]).tok == whole[0 + k].tok && a[k].form
        == whole[0 + k].form by {
        assert(whole[k].tok == a[k].tok);
    }
    assert(whole[n].tok == semi.tok);
    assert(mirrors(a, whole, 0, n));
    lemma_mirror_program(a, whole, 0, n, 0, none, none);
    assert(none + first.skip(0) =~= first);
    assert forall|k: int| 0 <= k < m implies (#[trigger] b[k]).tok == whole[n + 1 + k].tok
        && b[k].form == whole[n + 1 + k].form by {
        assert(whole[n + 1 + k].tok == b[k].tok);
    }
    assert(whole[n + 1 + m].tok == b[m].tok);
    assert(mirrors(b, whole, n + 1, m));
    lemma_mirror_program(b, whole, n + 1, m, 0, none, first);
    assert(first + second.skip(0) =~= first + second);
}

proof fn lemma_closed_stream(ts: Seq<SpanV>, g: spec_fn(NumeralV) -> FormV)
    requires
        lexer::closed(ts),
    ensures
        stream(with_forms(ts, g)),
{
    let lexemes = with_forms(ts, g);
    assert(lexemes.last().tok == ts.last().tok);
    assert forall|i: int| 0 <= i < lexemes.len() implies (#[trigger] lexemes[i]).line >= 1
        && lexemes[i].col >= 1 && (lexemes[i].tok is Eof ==> i == lexemes.len() - 1) by {
        assert(ts[i].line >= 1);
    }
}

/// Two programs in writing, joined by a semicolon and any white space, are the program of the
/// statements of the first followed by those of the second. The first must not end in a line
/// comment, which would swallow the semicolon.
pub proof fn law_written_programs_join(
    a: Seq<char>,
    gap: Seq<char>,
    b: Seq<char>,
    g: spec_fn(NumeralV) -> FormV,
    first: Seq<StmtV>,
    second: Seq<StmtV>,
)
    requires
        forall|k: int| 0 <= k < gap.len() ==> lexer::is_blank(#[trigger] gap[k]),
        !lexer::ends_in_comment(a),
        parse_text(a, g) == Ok::<Seq<StmtV>, ErrV>(first),
        parse_text(b, g) == Ok::<Seq<StmtV>, ErrV>(second),
    ensures
        parse_text(a.push(';') + gap + b, g) == Ok::<Seq<StmtV>, ErrV>(first + second),
{
    lexer::law_joined_texts(a, ';', gap, b);
    let (x, y) = (lexer::lex(a)->Ok_0, lexer::lex(b)->Ok_0);
    let ts = lexer::lex(a.push(';') + gap + b)->Ok_0;
    lemma_closed_stream(x, g);
    lemma_closed_stream(y, g);
    let (p, q, whole) = (with_forms(x, g), with_forms(y, g), with_forms(ts, g));
    let semi = whole[x.len() - 1];
    let mark = seq![SpanV { tok: TokV::Semi, line: 0, col: 0 }];
    let want = x.drop_last() + mark + y;
    assert(whole.len() == p.len() + q.len());
    assert(ts[x.len() - 1].tok == want[x.len() - 1].tok);
    assert forall|k: int| 0 <= k < whole.len() implies ({
        let t = if k < p.len() - 1 {
            p[k]
        } else if k == p.len() - 1 {
            semi
        } else {
            q[k - p.len()]
        };
        (#[trigger] whole[k]).tok == t.tok && whole[k].form == t.form
    }) by {
        assert(ts[k].tok == want[k].tok);
        if k < x.len() - 1 {
            assert(want[k] == x[k]);
        } else if k > x.len() - 1 {
            assert(want[k] == y[k - x.len()]);
        }
    }
    law_programs_join(p, q, whole, semi, first, second);
}

/// A semicolon behind a program changes nothing, where the program does not end in a line comment.
pub proof fn law_trailing_semicolon(
    a: Seq<char>,
    g: spec_fn(NumeralV) -> FormV,
    plan: Seq<StmtV>,
)
    requires
        !lexer::ends_in_comment(a),
        parse_text(a, g) == Ok::<Seq<StmtV>, ErrV>(plan),
    ensures
        parse_text(a.push(';'), g) == Ok::<Seq<StmtV>, ErrV>(plan),
{
    let none = Seq::<char>::empty();
    assert(lexer::token_at(none, 0) == Ok::<(TokV, int), (Seq<char>, int)>((TokV::Eof, 0)));
    assert(lexer::skip_blank(none, 0) == 0);
    assert(lexer::lex(none) is Ok);
    let ts = lexer::lex(none)->Ok_0;
    assert(ts.len() == 1 && ts[0].tok is Eof);
    assert(with_forms(ts, g)[0].tok is Eof);
    assert(parse_text(none, g) == Ok::<Seq<StmtV>, ErrV>(Seq::empty()));
    law_written_programs_join(a, none, none, g, plan, Seq::empty());
    assert(a.push(';') + none + none =~= a.push(';'));
    assert(plan + Seq::<StmtV>::empty() =~= plan);
}

/// A statement in writing is a program of that one statement.
pub proof fn law_statement_is_a_program(a: Seq<char>, g: spec_fn(NumeralV) -> FormV, stmt: StmtV)
    requires
        parse_one(a, g) == Ok::<StmtV, ErrV>(stmt),
    ensures
        parse_text(a, g) == Ok::<Seq<StmtV>, ErrV>(seq![stmt]),
{
    let spans = lexer::lex(a)->Ok_0;
    let ts = with_forms(spans, g);
    let none = Seq::<StmtV>::empty();
    lexer::lemma_lex_closed(a, 0, Seq::empty());
    lemma_closed_stream(spans, g);
    let n = ts.len() - 1;
    assert(mirrors(ts, ts, 0, n));
    lemma_mirror_statement(ts, ts, 0, n, 0);
    lemma_mirror_token(ts, ts, 0, n, 0);
    let (s, j) = p_statement(ts, 0)->Ok_0;
    assert(ts[0].tok !is Eof && ts[0].tok !is Semi) by {
        reveal(p_statement);
    }
    assert(none.push(stmt) =~= seq![stmt]);
    assert(p_program(ts, j, none.push(stmt)) == Ok::<Seq<StmtV>, ErrV>(seq![stmt]));
}

/// Two statements in writing, joined by a semicolon and any white space, are the plan of the two in
/// order, and a further semicolon behind them changes nothing.
pub proof fn law_written_statements_join(
    a: Seq<char>,
    gap: Seq<char>,
    b: Seq<char>,
    g: spec_fn(NumeralV) -> FormV,
    first: StmtV,
    second: StmtV,
)
    requires
        forall|k: int| 0 <= k < gap.len() ==> lexer::is_blank(#[trigger] gap[k]),
        !lexer::ends_in_comment(a),
        parse_one(a, g) == Ok::<StmtV, ErrV>(first),
        parse_one(b, g) == Ok::<StmtV, ErrV>(second),
    ensures
        parse_text(a.push(';') + gap + b, g) == Ok::<Seq<StmtV>, ErrV>(seq![first, second]),
        !lexer::ends_in_comment(b) ==> parse_text((a.push(';') + gap + b).push(';'), g) == Ok::<
            Seq<StmtV>,
            ErrV,
        >(seq![first, second]),
{
    law_statement_is_a_program(a, g, first);
    law_statement_is_a_program(b, g, second);
    assert(seq![first] + seq![second] =~= seq![first, second]);
    law_written_programs_join(a, gap, b, g, seq![first], seq![second]);
    if !lexer::ends_in_comment(b) {
        law_trailing_semicolon(b, g, seq![second]);
        law_written_programs_join(a, gap, b.push(';'), g, seq![first], seq![second]);
        assert(a.push(';') + gap + b.push(';') =~= (a.push(';') + gap + b).push(';'));
    }
}

/// The `Eof` behind tokens that are looked at by themselves.
pub open spec fn end_token() -> LexV {
    LexV { tok: TokV::Eof, line: 1, col: 1, form: no_form() }
}

/// The kind of clause that a token starts, as a number; 0 for none.
pub open spec fn clause_kind(t: TokV) -> int {
    if is_word(t, "where"@) {
        1
    } else if is_word(t, "order"@) {
        2
    } else if is_word(t, "as"@) {
        3
    } else if is_word(t, "limit"@) {
        4
    } else {
        0
    }
}

/// What the clause `c`, by itself, makes of a selection of nothing.
pub open spec fn clause_alone(c: Seq<LexV>) -> Option<Result<(SelV, int), ErrV>> {
    p_clause(c.push(end_token()), 0, select_all(Seq::empty()))
}

/// The tokens are one clause of a `SELECT`, from the first to the last.
pub open spec fn is_clause(c: Seq<LexV>) -> bool {
    &&& stream(c.push(end_token()))
    &&& clause_alone(c) matches Some(Ok((_, j))) && j == c.len()
}

/// `sel` with what a clause of a kind sets taken from `from`.
pub open spec fn taking(sel: SelV, from: SelV, kind: int) -> SelV {
    if kind == 1 {
        SelV { knn: from.knn, filter: from.filter, ..sel }
    } else if kind == 2 {
        SelV { order: from.order, ..sel }
    } else if kind == 3 {
        SelV { as_of: from.as_of, ..sel }
    } else if kind == 4 {
        SelV { limit: from.limit, ..sel }
    } else {
        sel
    }
}

/// `sel` with the clause `c`.
pub open spec fn with_clause(sel: SelV, c: Seq<LexV>) -> SelV {
    match clause_alone(c) {
        Some(Ok((from, _))) => taking(sel, from, clause_kind(c[0].tok)),
        _ => sel,
    }
}

/// `sel` with the clauses, in order.
pub open spec fn with_clauses(sel: SelV, cs: Seq<Seq<LexV>>) -> SelV
    decreases cs.len(),
{
    if cs.len() == 0 {
        sel
    } else {
        with_clause(with_clauses(sel, cs.drop_last()), cs.last())
    }
}

/// All are clauses, and no two of one kind.
pub open spec fn clauses_once(cs: Seq<Seq<LexV>>) -> bool {
    &&& forall|i: int| 0 <= i < cs.len() ==> is_clause(#[trigger] cs[i])
    &&& forall|i: int, j: int|
        0 <= i < j < cs.len() ==> clause_kind((#[trigger] cs[i])[0].tok) != clause_kind(
            (#[trigger] cs[j])[0].tok,
        )
}

/// From `at` on `ts` holds the clauses, one behind the other, and then a semicolon or `Eof`.
pub open spec fn holds_clauses(ts: Seq<LexV>, at: int, cs: Seq<Seq<LexV>>) -> bool
    decreases cs.len(),
{
    if cs.len() == 0 {
        0 <= at < ts.len() && (ts[at].tok is Semi || ts[at].tok is Eof)
    } else {
        &&& 0 <= at
        &&& at + cs[0].len() < ts.len()
        &&& forall|k: int|
            0 <= k < cs[0].len() ==> (#[trigger] cs[0][k]).tok == ts[at + k].tok && cs[0][k].form
                == ts[at + k].form
        &&& holds_clauses(ts, at + cs[0].len(), cs.drop_first())
    }
}

/// A clause sets its fields and no others, whatever it is added to.
proof fn lemma_clause_sets(ts: Seq<LexV>, i: int, sel: SelV, other: SelV)
    ensures
        p_clause(ts, i, other) matches Some(Ok((from, j))) ==> p_clause(ts, i, sel) == Some(
            Ok::<(SelV, int), ErrV>((taking(sel, from, clause_kind(ts[i].tok)), j)),
        ),
        p_clause(ts, i, other) is Some <==> starts_clause(ts[i].tok),
{
    reveal(p_clause);
}

/// A clause is read as by itself, whatever clause or end follows it.
proof fn lemma_clause_in_place(ts: Seq<LexV>, at: int, c: Seq<LexV>, sel: SelV)
    requires
        is_clause(c),
        0 <= at,
        at + c.len() < ts.len(),
        forall|k: int|
            0 <= k < c.len() ==> (#[trigger] c[k]).tok == ts[at + k].tok && c[k].form == ts[at
                + k].form,
        ({
            let t = ts[at + c.len()].tok;
            t is Semi || t is Eof || starts_clause(t)
        }),
    ensures
        c.len() > 0,
        starts_clause(c[0].tok),
        p_clause(ts, at, sel) == Some(
            Ok::<(SelV, int), ErrV>((with_clause(sel, c), at + c.len())),
        ),
{
    let a = c.push(end_token());
    let n = c.len() as int;
    let none = select_all(Seq::empty());
    lemma_clause_sets(a, 0, none, none);
    assert(a[0].tok == if n > 0 {
        c[0].tok
    } else {
        TokV::Eof
    });
    assert forall|k: int| 0 <= k < n implies (#[trigger] a[k]).tok == ts[at + k].tok && a[k].form
        == ts[at + k].form by {
        assert(a[k] == c[k]);
    }
    assert(copies(a, ts, at, n));
    lemma_mirror_one_clause(a, ts, at, n, none);
    assert(c[0].tok == ts[at].tok);
    lemma_clause_sets(ts, at, sel, none);
}

proof fn lemma_mirror_one_clause(a: Seq<LexV>, b: Seq<LexV>, off: int, n: int, sel: SelV)
    requires
        copies(a, b, off, n),
        n > 0,
    ensures
        p_clause(a, 0, sel) matches Some(Ok((v, j))) ==> p_clause(b, off, sel) == Some(
            Ok::<(SelV, int), ErrV>((v, off + j)),
        ),
{
    reveal(p_clause);
    lemma_copied_token(a, b, off, n, 0);
    if is_word(a[0].tok, "where"@) {
        lemma_mirror_where(a, b, off, n, 1);
    } else if is_word(a[0].tok, "order"@) {
        lemma_mirror_order(a, b, off, n, 1);
    } else if is_word(a[0].tok, "as"@) {
        lemma_copied_token(a, b, off, n, 1);
        if is_word(a[1].tok, "of"@) {
            lemma_copied_token(a, b, off, n, 2);
        }
    } else if is_word(a[0].tok, "limit"@) {
        lemma_copied_token(a, b, off, n, 1);
    }
}

proof fn lemma_with_clauses_front(sel: SelV, cs: Seq<Seq<LexV>>)
    requires
        cs.len() > 0,
    ensures
        with_clauses(sel, cs) == with_clauses(with_clause(sel, cs[0]), cs.drop_first()),
    decreases cs.len(),
{
    if cs.len() == 1 {
        assert(cs.drop_last() =~= Seq::<Seq<LexV>>::empty());
        assert(cs.drop_first() =~= Seq::<Seq<LexV>>::empty());
        assert(with_clauses(sel, cs.drop_last()) == sel);
        assert(with_clauses(with_clause(sel, cs[0]), cs.drop_first()) == with_clause(sel, cs[0]));
    } else {
        lemma_with_clauses_front(sel, cs.drop_last());
        assert(cs.drop_last().drop_first() =~= cs.drop_first().drop_last());
        assert(cs.drop_first().last() == cs.last());
    }
}

/// The clauses of a `SELECT` are read one by one: what they make of `sel` is each of them in turn.
proof fn lemma_clauses_in_place(ts: Seq<LexV>, at: int, cs: Seq<Seq<LexV>>, sel: SelV)
    requires
        holds_clauses(ts, at, cs),
        forall|i: int| 0 <= i < cs.len() ==> is_clause(#[trigger] cs[i]),
    ensures
        p_clauses(ts, at, sel) matches Ok((s, j)) && s == with_clauses(sel, cs) && j == at
            + clauses_len(cs) && j < ts.len() && (ts[j].tok is Semi || ts[j].tok is Eof),
    decreases cs.len(),
{
    if cs.len() == 0 {
        lemma_clause_sets(ts, at, sel, sel);
    } else {
        let c = cs[0];
        let rest = cs.drop_first();
        assert forall|i: int| 0 <= i < rest.len() implies is_clause(#[trigger] rest[i]) by {
            assert(is_clause(cs[i + 1]));
        }
        let next = at + c.len();
        if rest.len() > 0 {
            assert(is_clause(rest[0]));
            lemma_clause_head(rest[0]);
        }
        assert(holds_clauses(ts, next, rest));
        lemma_clauses_start(ts, next, rest);
        lemma_clause_in_place(ts, at, c, sel);
        lemma_clauses_in_place(ts, next, rest, with_clause(sel, c));
        lemma_with_clauses_front(sel, cs);
    }
}

/// Where clauses are held, one starts or the end is reached.
proof fn lemma_clauses_start(ts: Seq<LexV>, at: int, cs: Seq<Seq<LexV>>)
    requires
        holds_clauses(ts, at, cs),
        cs.len() > 0 ==> is_clause(cs[0]),
    ensures
        ts[at].tok is Semi || ts[at].tok is Eof || starts_clause(ts[at].tok),
{
    if cs.len() > 0 {
        lemma_clause_head(cs[0]);
        assert(cs[0][0].tok == ts[at + 0].tok);
    }
}

proof fn lemma_clause_head(c: Seq<LexV>)
    requires
        is_clause(c),
    ensures
        c.len() > 0,
        starts_clause(c[0].tok),
{
    let a = c.push(end_token());
    let none = select_all(Seq::empty());
    lemma_clause_sets(a, 0, none, none);
    if c.len() > 0 {
        assert(a[0] == c[0]);
    } else {
        assert(a[0].tok is Eof);
    }
}

/// How many tokens the clauses have.
pub open spec fn clauses_len(cs: Seq<Seq<LexV>>) -> int
    decreases cs.len(),
{
    if cs.len() == 0 {
        0
    } else {
        cs[0].len() + clauses_len(cs.drop_first())
    }
}

/// Clauses of different kinds may be added in either order.
proof fn lemma_clauses_commute(sel: SelV, c: Seq<LexV>, d: Seq<LexV>)
    requires
        clause_kind(c[0].tok) != clause_kind(d[0].tok),
    ensures
        with_clause(with_clause(sel, c), d) == with_clause(with_clause(sel, d), c),
{
}

/// Any one of the clauses may be added last.
proof fn lemma_clause_last(sel: SelV, cs: Seq<Seq<LexV>>, p: int)
    requires
        clauses_once(cs),
        0 <= p < cs.len(),
    ensures
        with_clauses(sel, cs) == with_clause(with_clauses(sel, cs.remove(p)), cs[p]),
    decreases cs.len(),
{
    let n = cs.len() - 1;
    let rest = cs.remove(p);
    if p == n {
        assert(rest =~= cs.drop_last());
    } else {
        let fewer = cs.drop_last();
        assert forall|i: int, j: int| 0 <= i < j < fewer.len() implies clause_kind(
            (#[trigger] fewer[i])[0].tok,
        ) != clause_kind((#[trigger] fewer[j])[0].tok) by {
            assert(clause_kind(cs[i][0].tok) != clause_kind(cs[j][0].tok));
        }
        assert forall|i: int| 0 <= i < fewer.len() implies is_clause(#[trigger] fewer[i]) by {
            assert(is_clause(cs[i]));
        }
        lemma_clause_last(sel, fewer, p);
        assert(fewer.remove(p) =~= rest.drop_last());
        assert(rest.last() == cs.last());
        assert(clause_kind(cs[p][0].tok) != clause_kind(cs[n][0].tok));
        lemma_clauses_commute(with_clauses(sel, rest.drop_last()), cs[p], cs.last());
    }
}

/// The order in which clauses of different kinds are added does not matter.
proof fn lemma_clauses_in_any_order(sel: SelV, cs: Seq<Seq<LexV>>, ds: Seq<Seq<LexV>>)
    requires
        clauses_once(cs),
        clauses_once(ds),
        forall|c: Seq<LexV>| #[trigger] cs.contains(c) <==> ds.contains(c),
    ensures
        with_clauses(sel, cs) == with_clauses(sel, ds),
    decreases ds.len(),
{
    if ds.len() == 0 {
        if cs.len() > 0 {
            assert(cs.contains(cs[0]));
        }
    } else {
        let x = ds.last();
        assert(ds[ds.len() - 1] == x);
        assert(ds.contains(x));
        assert(cs.contains(x));
        let p = choose|p: int| 0 <= p < cs.len() && cs[p] == x;
        let rest = cs.remove(p);
        let fewer = ds.drop_last();
        lemma_clauses_less(cs, p);
        lemma_clauses_less(ds, ds.len() - 1);
        assert(ds.remove(ds.len() - 1) =~= fewer);
        assert forall|c: Seq<LexV>| #[trigger] rest.contains(c) <==> fewer.contains(c) by {
            assert(cs.contains(c) <==> ds.contains(c));
        }
        lemma_clauses_in_any_order(sel, rest, fewer);
        lemma_clause_last(sel, cs, p);
    }
}

proof fn lemma_clauses_less(cs: Seq<Seq<LexV>>, p: int)
    requires
        clauses_once(cs),
        0 <= p < cs.len(),
    ensures
        clauses_once(cs.remove(p)),
        forall|c: Seq<LexV>| #[trigger]
            cs.remove(p).contains(c) <==> cs.contains(c) && c != cs[p],
{
    let rest = cs.remove(p);
    let place = |i: int|
        if i < p {
            i
        } else {
            i + 1
        };
    assert forall|i: int| 0 <= i < rest.len() implies is_clause(#[trigger] rest[i]) by {
        assert(is_clause(cs[place(i)]));
    }
    assert forall|i: int, j: int| 0 <= i < j < rest.len() implies clause_kind(
        (#[trigger] rest[i])[0].tok,
    ) != clause_kind((#[trigger] rest[j])[0].tok) by {
        assert(clause_kind(cs[place(i)][0].tok) != clause_kind(cs[place(j)][0].tok));
    }
    assert forall|c: Seq<LexV>| #[trigger] rest.contains(c) <==> cs.contains(c) && c != cs[p] by {
        if rest.contains(c) {
            let k = choose|k: int| 0 <= k < rest.len() && rest[k] == c;
            let i = place(k);
            assert(cs[i] == c);
            if i < p {
                assert(clause_kind(cs[i][0].tok) != clause_kind(cs[p][0].tok));
            } else {
                assert(clause_kind(cs[p][0].tok) != clause_kind(cs[i][0].tok));
            }
        }
        if cs.contains(c) && c != cs[p] {
            let i = choose|i: int| 0 <= i < cs.len() && cs[i] == c;
            let k = if i < p {
                i
            } else {
                i - 1
            };
            assert(rest[k] == c);
        }
    }
}

/// The order of the clauses of a `SELECT` does not matter: the same clauses, at most one of each
/// kind, make the same selection in whatever order they stand.
pub proof fn law_clauses_in_any_order(
    ts: Seq<LexV>,
    at: int,
    cs: Seq<Seq<LexV>>,
    us: Seq<LexV>,
    bt: int,
    ds: Seq<Seq<LexV>>,
    sel: SelV,
)
    requires
        clauses_once(cs),
        clauses_once(ds),
        forall|c: Seq<LexV>| #[trigger] cs.contains(c) <==> ds.contains(c),
        holds_clauses(ts, at, cs),
        holds_clauses(us, bt, ds),
    ensures
        p_clauses(ts, at, sel) matches Ok((s, j)) && s == with_clauses(sel, cs) && j == at
            + clauses_len(cs),
        p_clauses(us, bt, sel) matches Ok((s, j)) && s == with_clauses(sel, cs) && j == bt
            + clauses_len(ds),
{
    lemma_clauses_in_place(ts, at, cs, sel);
    lemma_clauses_in_place(us, bt, ds, sel);
    lemma_clauses_in_any_order(sel, cs, ds);
}

/// The tokens of a text without the closing `Eof`, in the forms that `g` gives.
pub open spec fn tokens_of(s: Seq<char>, g: spec_fn(NumeralV) -> FormV) -> Seq<LexV> {
    with_forms(lexer::lex(s)->Ok_0, g).drop_last()
}

/// The tokens of each of the texts.
pub open spec fn all_tokens(parts: Seq<Seq<char>>, g: spec_fn(NumeralV) -> FormV) -> Seq<
    Seq<LexV>,
> {
    Seq::new(parts.len(), |i: int| tokens_of(parts[i], g))
}

/// The texts with a space between each two.
pub open spec fn spaced(parts: Seq<Seq<char>>) -> Seq<char>
    decreases parts.len(),
{
    if parts.len() == 0 {
        Seq::empty()
    } else if parts.len() == 1 {
        parts[0]
    } else {
        parts[0].push(' ') + spaced(parts.drop_first())
    }
}

/// The text can be read as tokens, and does not end in a line comment.
pub open spec fn is_readable(s: Seq<char>) -> bool {
    lexer::lex(s) is Ok && !lexer::ends_in_comment(s)
}

/// The text is a clause of a `SELECT`.
pub open spec fn is_written_clause(s: Seq<char>, g: spec_fn(NumeralV) -> FormV) -> bool {
    is_readable(s) && is_clause(tokens_of(s, g))
}

/// The text is a `SELECT` from `table` without a clause.
pub open spec fn is_written_head(
    s: Seq<char>,
    table: Seq<char>,
    g: spec_fn(NumeralV) -> FormV,
) -> bool {
    let ts = with_forms(lexer::lex(s)->Ok_0, g);
    &&& is_readable(s)
    &&& is_word(ts[0].tok, "select"@)
    &&& p_fields(ts, 1) matches Ok(a) && is_word(ts[a].tok, "from"@) && ts[a + 1].tok == TokV::Ident(
        table,
    ) && a + 3 == ts.len()
}

proof fn lemma_holds_shift(
    ts: Seq<LexV>,
    us: Seq<LexV>,
    off: int,
    at: int,
    cs: Seq<Seq<LexV>>,
)
    requires
        0 <= off,
        holds_clauses(us, at, cs),
        ts.len() == off + us.len(),
        forall|k: int|
            0 <= k < us.len() ==> (#[trigger] us[k]).tok == ts[off + k].tok && us[k].form == ts[off
                + k].form,
    ensures
        holds_clauses(ts, off + at, cs),
    decreases cs.len(),
{
    if cs.len() == 0 {
        assert(us[at].tok == ts[off + at].tok);
    } else {
        lemma_holds_shift(ts, us, off, at + cs[0].len(), cs.drop_first());
        assert forall|k: int| 0 <= k < cs[0].len() implies (#[trigger] cs[0][k]).tok == ts[off + at
            + k].tok && cs[0][k].form == ts[off + at + k].form by {
            assert(us[at + k].tok == ts[off + (at + k)].tok);
        }
    }
}

/// Texts with spaces between them are read as the tokens of one behind the other.
proof fn lemma_spaced_tokens(parts: Seq<Seq<char>>, g: spec_fn(NumeralV) -> FormV)
    requires
        parts.len() > 0,
        forall|i: int| 0 <= i < parts.len() ==> is_readable(#[trigger] parts[i]),
    ensures
        ({
            let cs = all_tokens(parts, g);
            &&& lexer::lex(spaced(parts)) matches Ok(ts) && lexer::closed(ts) && ts.len()
                == clauses_len(cs) + 1 && holds_clauses(with_forms(ts, g), 0, cs)
        }),
    decreases parts.len(),
{
    let first = parts[0];
    let cs = all_tokens(parts, g);
    let rest = parts.drop_first();
    assert(is_readable(parts[0]));
    lexer::lemma_lex_closed(first, 0, Seq::empty());
    let x = lexer::lex(first)->Ok_0;
    assert(cs[0] == tokens_of(first, g));
    assert(cs[0].len() == x.len() - 1);
    assert(cs.drop_first() =~= all_tokens(rest, g));
    if parts.len() == 1 {
        let ts = with_forms(x, g);
        assert(rest.len() == 0);
        assert(clauses_len(cs.drop_first()) == 0);
        assert(ts[x.len() - 1].tok == x.last().tok);
        assert(holds_clauses(ts, cs[0].len() as int, cs.drop_first()));
        assert forall|k: int| 0 <= k < cs[0].len() implies (#[trigger] cs[0][k]).tok == ts[0
            + k].tok && cs[0][k].form == ts[0 + k].form by {}
    } else {
        assert forall|i: int| 0 <= i < rest.len() implies is_readable(#[trigger] rest[i]) by {
            assert(is_readable(parts[i + 1]));
        }
        lemma_spaced_tokens(rest, g);
        let none = Seq::<char>::empty();
        lexer::law_joined_texts(first, ' ', none, spaced(rest));
        assert(first.push(' ') + none + spaced(rest) =~= spaced(parts));
        let y = lexer::lex(spaced(rest))->Ok_0;
        let ts = lexer::lex(spaced(parts))->Ok_0;
        let want = x.drop_last() + Seq::<SpanV>::empty() + y;
        let (whole, us) = (with_forms(ts, g), with_forms(y, g));
        let off = cs[0].len() as int;
        assert forall|k: int| 0 <= k < us.len() implies (#[trigger] us[k]).tok == whole[off
            + k].tok && us[k].form == whole[off + k].form by {
            assert(ts[off + k].tok == want[off + k].tok);
            assert(want[off + k] == y[k]);
        }
        lemma_holds_shift(whole, us, off, 0, cs.drop_first());
        assert forall|k: int| 0 <= k < off implies (#[trigger] cs[0][k]).tok == whole[0 + k].tok
            && cs[0][k].form == whole[0 + k].form by {
            assert(ts[k].tok == want[k].tok);
            assert(want[k] == x[k]);
        }
    }
}

/// A `SELECT` is told from the other statements by its first word.
proof fn lemma_select_word(t: TokV)
    requires
        is_word(t, "select"@),
    ensures
        !is_word(t, "create"@),
        !is_word(t, "insert"@),
        !is_word(t, "relate"@),
        !is_word(t, "match"@),
        !is_word(t, "closure"@),
{
    reveal_strlit("select");
    reveal_strlit("create");
    reveal_strlit("insert");
    reveal_strlit("relate");
    reveal_strlit("match");
    reveal_strlit("closure");
    assert(text::lower("select"@)[0] == 's');
    assert(text::lower("create"@)[0] == 'c');
    assert(text::lower("insert"@)[0] == 'i');
    assert(text::lower("relate"@)[0] == 'r');
    assert(text::lower("match"@)[0] == 'm');
    assert(text::lower("closure"@)[0] == 'c');
}

/// What a `SELECT` with clauses in writing is parsed to.
proof fn lemma_written_select(
    head: Seq<char>,
    cs: Seq<Seq<char>>,
    table: Seq<char>,
    g: spec_fn(NumeralV) -> FormV,
)
    requires
        is_written_head(head, table, g),
        forall|i: int| 0 <= i < cs.len() ==> is_written_clause(#[trigger] cs[i], g),
    ensures
        parse_text(spaced(seq![head] + cs), g) == Ok::<Seq<StmtV>, ErrV>(
            seq![StmtV::Select(with_clauses(select_all(table), all_tokens(cs, g)))],
        ),
{
    let parts = seq![head] + cs;
    assert forall|i: int| 0 <= i < parts.len() implies is_readable(#[trigger] parts[i]) by {
        if i > 0 {
            assert(parts[i] == cs[i - 1]);
        }
    }
    lemma_spaced_tokens(parts, g);
    let clauses = all_tokens(cs, g);
    let all = all_tokens(parts, g);
    assert(all[0] == tokens_of(head, g));
    assert(all.drop_first() =~= clauses) by {
        assert forall|i: int| 0 <= i < clauses.len() implies all.drop_first()[i] == clauses[i] by {
            assert(parts[i + 1] == cs[i]);
        }
    }
    assert forall|i: int| 0 <= i < clauses.len() implies is_clause(#[trigger] clauses[i]) by {
        assert(is_written_clause(cs[i], g));
    }
    let spans = lexer::lex(spaced(parts))->Ok_0;
    let ts = with_forms(spans, g);
    lemma_closed_stream(spans, g);
    lexer::lemma_lex_closed(head, 0, Seq::empty());
    let hs = with_forms(lexer::lex(head)->Ok_0, g);
    lemma_closed_stream(lexer::lex(head)->Ok_0, g);
    let n = hs.len() - 1;
    assert(all[0].len() == n);
    assert(holds_clauses(ts, n, clauses));
    lemma_clauses_start(ts, n, clauses);
    assert forall|k: int| 0 <= k < n implies (#[trigger] hs[k]).tok == ts[0 + k].tok && hs[k].form
        == ts[0 + k].form by {
        assert(hs[k] == all[0][k]);
    }
    assert(copies(hs, ts, 0, n));
    lemma_head_in_place(hs, ts, n, table);
    lemma_clauses_in_place(ts, n, clauses, select_all(table));
    let sel = with_clauses(select_all(table), clauses);
    let j = n + clauses_len(clauses);
    assert(j == ts.len() - 1);
    let stmt = StmtV::Select(sel);
    assert(p_statement(ts, 0) == Ok::<(StmtV, int), ErrV>((stmt, j))) by {
        reveal(p_statement);
        lemma_select_word(ts[0].tok);
    }
    assert(!(ts[0].tok is Eof) && !(ts[0].tok is Semi));
    assert(ts[j].tok is Eof);
    let none = Seq::<StmtV>::empty();
    assert(none.push(stmt) =~= seq![stmt]);
    assert(p_program(ts, j, none.push(stmt)) == Ok::<Seq<StmtV>, ErrV>(none.push(stmt)));
}

proof fn lemma_head_in_place(hs: Seq<LexV>, ts: Seq<LexV>, n: int, table: Seq<char>)
    requires
        copies(hs, ts, 0, n),
        is_word(hs[0].tok, "select"@),
        p_fields(hs, 1) matches Ok(a) && is_word(hs[a].tok, "from"@) && hs[a + 1].tok
            == TokV::Ident(table) && a + 3 == hs.len(),
    ensures
        is_word(ts[0].tok, "select"@),
        p_select(ts, 1) == (match p_clauses(ts, n, select_all(table)) {
            Err(e) => Err::<(StmtV, int), ErrV>(e),
            Ok((sel, d)) => Ok((StmtV::Select(sel), d)),
        }),
{
    let a = p_fields(hs, 1)->Ok_0;
    lemma_copied_token(hs, ts, 0, n, 0);
    if n >= 1 {
        lemma_mirror_fields(hs, ts, 0, n, 1);
        lemma_copied_token(hs, ts, 0, n, a);
        lemma_copied_token(hs, ts, 0, n, a + 1);
    }
}

/// The clauses of a `SELECT` in writing may stand in any order: behind the same head, the same
/// clauses, at most one of each kind, are parsed to the same statement. What no clause sets is not
/// set.
pub proof fn law_written_clauses_in_any_order(
    head: Seq<char>,
    cs: Seq<Seq<char>>,
    ds: Seq<Seq<char>>,
    table: Seq<char>,
    g: spec_fn(NumeralV) -> FormV,
)
    requires
        is_written_head(head, table, g),
        forall|i: int| 0 <= i < cs.len() ==> is_written_clause(#[trigger] cs[i], g),
        forall|i: int| 0 <= i < ds.len() ==> is_written_clause(#[trigger] ds[i], g),
        clauses_once(all_tokens(cs, g)),
        clauses_once(all_tokens(ds, g)),
        forall|c: Seq<char>| #[trigger] cs.contains(c) <==> ds.contains(c),
    ensures
        ({
            let sel = with_clauses(select_all(table), all_tokens(cs, g));
            &&& parse_text(spaced(seq![head] + cs), g) == Ok::<Seq<StmtV>, ErrV>(
                seq![StmtV::Select(sel)],
            )
            &&& parse_text(spaced(seq![head] + ds), g) == Ok::<Seq<StmtV>, ErrV>(
                seq![StmtV::Select(sel)],
            )
            &&& sel.table == table
            &&& !has_kind(all_tokens(cs, g), 1) ==> sel.knn is None && sel.filter is None
            &&& !has_kind(all_tokens(cs, g), 2) ==> sel.order is None
            &&& !has_kind(all_tokens(cs, g), 3) ==> sel.as_of is None
            &&& !has_kind(all_tokens(cs, g), 4) ==> sel.limit is None
        }),
{
    lemma_written_select(head, cs, table, g);
    lemma_written_select(head, ds, table, g);
    let (x, y) = (all_tokens(cs, g), all_tokens(ds, g));
    assert forall|t: Seq<LexV>| #[trigger] x.contains(t) <==> y.contains(t) by {
        if x.contains(t) {
            let i = choose|i: int| 0 <= i < x.len() && x[i] == t;
            assert(cs.contains(cs[i]));
            assert(ds.contains(cs[i]));
            let j = choose|j: int| 0 <= j < ds.len() && ds[j] == cs[i];
            assert(y[j] == t);
        }
        if y.contains(t) {
            let j = choose|j: int| 0 <= j < y.len() && y[j] == t;
            assert(ds.contains(ds[j]));
            assert(cs.contains(ds[j]));
            let i = choose|i: int| 0 <= i < cs.len() && cs[i] == ds[j];
            assert(x[i] == t);
        }
    }
    lemma_clauses_in_any_order(select_all(table), x, y);
    lemma_unset(select_all(table), x);
}

/// One of the clauses is of the kind.
pub open spec fn has_kind(cs: Seq<Seq<LexV>>, kind: int) -> bool {
    exists|i: int| 0 <= i < cs.len() && clause_kind((#[trigger] cs[i])[0].tok) == kind
}

/// What no clause sets stays as it was.
proof fn lemma_unset(sel: SelV, cs: Seq<Seq<LexV>>)
    ensures
        ({
            let r = with_clauses(sel, cs);
            &&& r.table == sel.table
            &&& !has_kind(cs, 1) ==> r.knn == sel.knn && r.filter == sel.filter
            &&& !has_kind(cs, 2) ==> r.order == sel.order
            &&& !has_kind(cs, 3) ==> r.as_of == sel.as_of
            &&& !has_kind(cs, 4) ==> r.limit == sel.limit
        }),
    decreases cs.len(),
{
    if cs.len() > 0 {
        let less = cs.drop_last();
        lemma_unset(sel, less);
        assert(cs[cs.len() - 1] == cs.last());
        assert forall|kind: int| has_kind(less, kind) implies has_kind(cs, kind) by {
            let i = choose|i: int| 0 <= i < less.len() && clause_kind((#[trigger] less[i])[0].tok)
                == kind;
            assert(cs[i] == less[i]);
        }
        assert(has_kind(cs, clause_kind(cs.last()[0].tok)));
    }
}

} // verus!
