//! The tokenizer of nql.
//!
//! Text becomes a sequence of tokens, each with the 1-based line and column at which it starts;
//! columns count UTF-8 bytes. Keywords are not told apart here: they arrive as identifiers. White
//! space and comments (`--` to the end of the line, `/* .. */`) separate tokens and are dropped.
use vstd::prelude::*;

use crate::ordmap;
#[allow(unused_imports)]
use crate::parser;
use crate::parser::NqlError;
#[allow(unused_imports)]
use crate::parser::ErrV;
use crate::text;

verus! {

/// A lexical token. A `Float` is kept as it is spelled.
#[derive(Debug, PartialEq)]
pub enum Token {
    /// A bare word: a keyword, a table, a field, ...
    Ident(String),
    Int(i64),
    /// A numeral with a fraction, an exponent, or too many digits for an `i64`.
    Float(String),
    /// A quoted string, without its quotes and with its escapes resolved.
    Str(String),
    LParen,
    RParen,
    LBrace,
    RBrace,
    LBracket,
    RBracket,
    /// `;`
    Semi,
    Comma,
    /// `->`
    Arrow,
    /// `<-`
    LeftArrow,
    Plus,
    /// `:`
    Colon,
    /// `::`
    DoubleColon,
    Eq,
    Lt,
    Gt,
    Star,
    Eof,
}

/// A token and where it starts.
#[derive(Debug, PartialEq)]
pub struct Spanned {
    pub tok: Token,
    pub line: usize,
    pub col: usize,
}

#[verifier::ext_equal]
pub enum TokV {
    Ident(Seq<char>),
    Int(i64),
    Float(Seq<char>),
    Str(Seq<char>),
    LParen,
    RParen,
    LBrace,
    RBrace,
    LBracket,
    RBracket,
    Semi,
    Comma,
    Arrow,
    LeftArrow,
    Plus,
    Colon,
    DoubleColon,
    Eq,
    Lt,
    Gt,
    Star,
    Eof,
}

#[verifier::ext_equal]
pub struct SpanV {
    pub tok: TokV,
    pub line: usize,
    pub col: usize,
}

impl View for Token {
    type V = TokV;

    open spec fn view(&self) -> TokV {
        match *self {
            Token::Ident(s) => TokV::Ident(s@),
            Token::Int(n) => TokV::Int(n),
            Token::Float(s) => TokV::Float(s@),
            Token::Str(s) => TokV::Str(s@),
            Token::LParen => TokV::LParen,
            Token::RParen => TokV::RParen,
            Token::LBrace => TokV::LBrace,
            Token::RBrace => TokV::RBrace,
            Token::LBracket => TokV::LBracket,
            Token::RBracket => TokV::RBracket,
            Token::Semi => TokV::Semi,
            Token::Comma => TokV::Comma,
            Token::Arrow => TokV::Arrow,
            Token::LeftArrow => TokV::LeftArrow,
            Token::Plus => TokV::Plus,
            Token::Colon => TokV::Colon,
            Token::DoubleColon => TokV::DoubleColon,
            Token::Eq => TokV::Eq,
            Token::Lt => TokV::Lt,
            Token::Gt => TokV::Gt,
            Token::Star => TokV::Star,
            Token::Eof => TokV::Eof,
        }
    }
}

impl View for Spanned {
    type V = SpanV;

    open spec fn view(&self) -> SpanV {
        SpanV { tok: self.tok@, line: self.line, col: self.col }
    }
}

// ---------------------------------------------------------------------------------------------
// Positions
// ---------------------------------------------------------------------------------------------
/// The number of bytes of a character in UTF-8.
pub open spec fn utf8_width(c: char) -> int {
    if (c as int) < 0x80 {
        1
    } else if (c as int) < 0x800 {
        2
    } else if (c as int) < 0x10000 {
        3
    } else {
        4
    }
}

/// The 1-based line of position `i`.
pub open spec fn line_at(s: Seq<char>, i: int) -> int
    decreases i,
{
    if i <= 0 {
        1
    } else if s[i - 1] == '\n' {
        line_at(s, i - 1) + 1
    } else {
        line_at(s, i - 1)
    }
}

/// The 1-based column of position `i`, in bytes from the start of its line.
pub open spec fn col_at(s: Seq<char>, i: int) -> int
    decreases i,
{
    if i <= 0 || s[i - 1] == '\n' {
        1
    } else {
        col_at(s, i - 1) + utf8_width(s[i - 1])
    }
}

/// `n` as a `usize`, the largest one where `n` is larger.
pub open spec fn clamp(n: int) -> usize {
    if n <= usize::MAX {
        n as usize
    } else {
        usize::MAX
    }
}

/// Lines and columns start at 1.
pub proof fn lemma_position(s: Seq<char>, i: int)
    ensures
        line_at(s, i) >= 1,
        col_at(s, i) >= 1,
    decreases i,
{
    if i > 0 {
        lemma_position(s, i - 1);
    }
}

fn utf8_len(c: char) -> (r: usize)
    ensures
        r == utf8_width(c),
{
    let n: u32 = c as u32;
    if n < 0x80 {
        1
    } else if n < 0x800 {
        2
    } else if n < 0x10000 {
        3
    } else {
        4
    }
}

/// A reading position with its line and column.
struct Place {
    pos: usize,
    line: usize,
    col: usize,
}

impl Place {
    spec fn is_at(&self, s: Seq<char>) -> bool {
        &&& self.pos <= s.len()
        &&& self.line == clamp(line_at(s, self.pos as int))
        &&& self.col == clamp(col_at(s, self.pos as int))
    }

    /// Moves over one character.
    fn bump(&mut self, src: &Vec<char>)
        requires
            old(self).is_at(src@),
            old(self).pos < src.len(),
        ensures
            final(self).is_at(src@),
            final(self).pos == old(self).pos + 1,
    {
        let c: char = src[self.pos];
        self.pos = self.pos + 1;
        proof {
            lemma_position(src@, self.pos - 1);
        }
        if c == '\n' {
            self.line = self.line.saturating_add(1);
            self.col = 1;
        } else {
            self.col = self.col.saturating_add(utf8_len(c));
        }
    }

    /// Moves on to position `to`.
    fn advance(&mut self, src: &Vec<char>, to: usize)
        requires
            old(self).is_at(src@),
            old(self).pos <= to <= src.len(),
        ensures
            final(self).is_at(src@),
            final(self).pos == to,
    {
        while self.pos < to
            invariant
                self.is_at(src@),
                self.pos <= to <= src.len(),
            decreases to - self.pos,
        {
            self.bump(src);
        }
    }
}

// ---------------------------------------------------------------------------------------------
// White space and comments
// ---------------------------------------------------------------------------------------------
/// The end of the line that position `i` is on.
pub open spec fn line_end(s: Seq<char>, i: int) -> int
    decreases s.len() - i,
{
    if 0 <= i < s.len() && s[i] != '\n' {
        line_end(s, i + 1)
    } else {
        i
    }
}

/// The position behind the first `*/` at or after `i`, if there is one.
pub open spec fn block_end(s: Seq<char>, i: int) -> Option<int>
    decreases s.len() - i,
{
    if 0 <= i && i + 1 < s.len() {
        if s[i] == '*' && s[i + 1] == '/' {
            Some(i + 2)
        } else {
            block_end(s, i + 1)
        }
    } else {
        None
    }
}

/// The characters that separate tokens.
pub open spec fn is_blank(c: char) -> bool {
    c == ' ' || c == '\t' || c == '\n' || c == '\r'
}

/// `s` has `a` and then `b` at position `i`.
pub open spec fn pair_at(s: Seq<char>, i: int, a: char, b: char) -> bool {
    0 <= i && i + 1 < s.len() && s[i] == a && s[i + 1] == b
}

/// Where a comment that starts at `i` ends; `None` where none starts there.
pub open spec fn comment_end(s: Seq<char>, i: int) -> Option<int> {
    if pair_at(s, i, '-', '-') {
        Some(line_end(s, i))
    } else if pair_at(s, i, '/', '*') {
        block_end(s, i + 2)
    } else {
        None
    }
}

/// The position of the next token at or after `i`.
pub open spec fn skip_blank(s: Seq<char>, i: int) -> int
    decreases s.len() - i,
{
    if 0 <= i < s.len() && is_blank(s[i]) {
        skip_blank(s, i + 1)
    } else {
        match comment_end(s, i) {
            Some(e) => if i < e <= s.len() {
                skip_blank(s, e)
            } else {
                i
            },
            None => i,
        }
    }
}

fn line_end_of(src: &Vec<char>, i: usize) -> (r: usize)
    requires
        i <= src.len(),
    ensures
        r == line_end(src@, i as int),
        i <= r <= src.len(),
        i < src.len() && src@[i as int] != '\n' ==> i < r,
{
    let mut e: usize = i;
    while e < src.len() && src[e] != '\n'
        invariant
            i <= e <= src.len(),
            line_end(src@, i as int) == line_end(src@, e as int),
        decreases src.len() - e,
    {
        e = e + 1;
    }
    e
}

fn block_end_of(src: &Vec<char>, i: usize) -> (r: Option<usize>)
    requires
        i <= src.len(),
    ensures
        match r {
            Some(e) => block_end(src@, i as int) == Some(e as int) && i < e <= src.len(),
            None => block_end(src@, i as int) is None,
        },
{
    let mut e: usize = i;
    while e < src.len() && e + 1 < src.len()
        invariant
            i <= e <= src.len(),
            block_end(src@, i as int) == block_end(src@, e as int),
        decreases src.len() - e,
    {
        if src[e] == '*' && src[e + 1] == '/' {
            return Some(e + 2);
        }
        e = e + 1;
    }
    None
}

fn comment_end_of(src: &Vec<char>, i: usize) -> (r: Option<usize>)
    requires
        i <= src.len(),
    ensures
        match r {
            Some(e) => comment_end(src@, i as int) == Some(e as int) && i < e <= src.len(),
            None => comment_end(src@, i as int) is None,
        },
{
    if i < src.len() && i + 1 < src.len() {
        if src[i] == '-' && src[i + 1] == '-' {
            return Some(line_end_of(src, i));
        }
        if src[i] == '/' && src[i + 1] == '*' {
            return block_end_of(src, i + 2);
        }
    }
    None
}

fn skip_ws(src: &Vec<char>, i: usize) -> (r: usize)
    requires
        i <= src.len(),
    ensures
        r == skip_blank(src@, i as int),
        i <= r <= src.len(),
{
    let mut j: usize = i;
    loop
        invariant
            i <= j <= src.len(),
            skip_blank(src@, i as int) == skip_blank(src@, j as int),
        decreases src.len() - j,
    {
        if j < src.len() && (src[j] == ' ' || src[j] == '\t' || src[j] == '\n' || src[j] == '\r') {
            j = j + 1;
        } else {
            match comment_end_of(src, j) {
                Some(e) => {
                    j = e;
                },
                None => {
                    return j;
                },
            }
        }
    }
}

// ---------------------------------------------------------------------------------------------
// Words and numerals
// ---------------------------------------------------------------------------------------------
/// A letter of ASCII or `_`.
pub open spec fn is_ident_start(c: char) -> bool {
    'a' <= c <= 'z' || 'A' <= c <= 'Z' || c == '_'
}

/// What a word starts with: a letter, `_`, or anything outside ASCII.
pub open spec fn is_word_start(c: char) -> bool {
    is_ident_start(c) || (c as int) >= 0x80
}

/// What a word goes on with: the same, or a digit.
pub open spec fn is_word_char(c: char) -> bool {
    is_word_start(c) || text::is_digit(c)
}

/// The end of the run of word characters at `i`.
pub open spec fn word_end(s: Seq<char>, i: int) -> int
    decreases s.len() - i,
{
    if 0 <= i < s.len() && is_word_char(s[i]) {
        word_end(s, i + 1)
    } else {
        i
    }
}

/// The end of the run of digits at `i`.
pub open spec fn digits_end(s: Seq<char>, i: int) -> int
    decreases s.len() - i,
{
    if 0 <= i < s.len() && text::is_digit(s[i]) {
        digits_end(s, i + 1)
    } else {
        i
    }
}

/// The end of a fraction (`.` and digits) at `e`; `e` itself where there is none.
pub open spec fn fraction_end(s: Seq<char>, e: int) -> int {
    if 0 <= e && e + 1 < s.len() && s[e] == '.' && text::is_digit(s[e + 1]) {
        digits_end(s, e + 1)
    } else {
        e
    }
}

/// Where the digits of an exponent at `e` start, behind its letter and its sign.
pub open spec fn exponent_digits(s: Seq<char>, e: int) -> int {
    if 0 <= e && e + 1 < s.len() && (s[e + 1] == '+' || s[e + 1] == '-') {
        e + 2
    } else {
        e + 1
    }
}

/// The token of a run of digits: an integer where it fits in an `i64`, a float otherwise.
pub open spec fn int_token(negative: bool, digits: Seq<char>) -> TokV {
    let n = text::dec_value(digits);
    if negative {
        if n <= 0x8000_0000_0000_0000 {
            TokV::Int((-n) as i64)
        } else {
            TokV::Float(seq!['-'] + digits)
        }
    } else {
        if n <= i64::MAX {
            TokV::Int(n as i64)
        } else {
            TokV::Float(digits)
        }
    }
}

/// What a token is at `i`: the token and the position behind it, or a message and the position it
/// complains about.
pub type TokenAt = Result<(TokV, int), (Seq<char>, int)>;

/// The numeral whose digits start at `i`.
pub open spec fn number_at(s: Seq<char>, i: int, negative: bool) -> TokenAt {
    let a = digits_end(s, i);
    let b = fraction_end(s, a);
    let sign = if negative {
        seq!['-']
    } else {
        Seq::empty()
    };
    if 0 <= b < s.len() && (s[b] == 'e' || s[b] == 'E') {
        let x = exponent_digits(s, b);
        if 0 <= x < s.len() && text::is_digit(s[x]) {
            let z = digits_end(s, x);
            Ok((TokV::Float(sign + s.subrange(i, b) + seq!['e'] + s.subrange(b + 1, z)), z))
        } else {
            Err(("malformed numeric exponent"@, i))
        }
    } else if b > a {
        Ok((TokV::Float(sign + s.subrange(i, b)), b))
    } else {
        Ok((int_token(negative, s.subrange(i, a)), a))
    }
}

fn word_end_of(src: &Vec<char>, i: usize) -> (r: usize)
    requires
        i <= src.len(),
    ensures
        r == word_end(src@, i as int),
        i <= r <= src.len(),
        i < src.len() && is_word_char(src@[i as int]) ==> i < r,
{
    let mut e: usize = i;
    while e < src.len() && (word_start(src[e]) || text::digit_char(src[e]))
        invariant
            i <= e <= src.len(),
            word_end(src@, i as int) == word_end(src@, e as int),
        decreases src.len() - e,
    {
        e = e + 1;
    }
    e
}

fn word_start(c: char) -> (r: bool)
    ensures
        r == is_word_start(c),
{
    ('a' <= c && c <= 'z') || ('A' <= c && c <= 'Z') || c == '_' || (c as u32) >= 0x80
}

fn digits_end_of(src: &Vec<char>, i: usize) -> (r: usize)
    requires
        i <= src.len(),
    ensures
        r == digits_end(src@, i as int),
        i <= r <= src.len(),
        i < src.len() && text::is_digit(src@[i as int]) ==> i < r,
        text::all_digits(src@.subrange(i as int, r as int)),
{
    let mut e: usize = i;
    while e < src.len() && text::digit_char(src[e])
        invariant
            i <= e <= src.len(),
            digits_end(src@, i as int) == digits_end(src@, e as int),
            forall|j: int| i <= j < e ==> text::is_digit(#[trigger] src@[j]),
        decreases src.len() - e,
    {
        e = e + 1;
    }
    assert forall|j: int| 0 <= j < e - i implies text::is_digit(
        #[trigger] src@.subrange(i as int, e as int)[j],
    ) by {
        assert(text::is_digit(src@[i + j]));
    }
    e
}

/// No message of the tokenizer is empty.
proof fn lemma_messages()
    ensures
        "malformed numeric exponent"@.len() > 0,
        "unterminated string literal"@.len() > 0,
        "unterminated string literal (newline before closing quote)"@.len() > 0,
        "invalid escape sequence `\\"@.len() > 0,
        "unexpected character '-' (expected `->` or a number)"@.len() > 0,
        "unexpected character `"@.len() > 0,
{
    reveal_strlit("malformed numeric exponent");
    reveal_strlit("unterminated string literal");
    reveal_strlit("unterminated string literal (newline before closing quote)");
    reveal_strlit("invalid escape sequence `\\");
    reveal_strlit("unexpected character '-' (expected `->` or a number)");
    reveal_strlit("unexpected character `");
}

/// What a token function returns, as its model.
spec fn outcome(r: Result<(Token, usize), (String, usize)>) -> TokenAt {
    match r {
        Ok((t, e)) => Ok((t@, e as int)),
        Err((m, p)) => Err((m@, p as int)),
    }
}

fn signed(negative: bool, t: String) -> (r: String)
    ensures
        r@ == (if negative {
            seq!['-']
        } else {
            Seq::<char>::empty()
        }) + t@,
{
    if negative {
        let r = text::join2("-", t.as_str());
        proof {
            reveal_strlit("-");
            assert("-"@ =~= seq!['-']);
        }
        r
    } else {
        assert(Seq::<char>::empty() + t@ =~= t@);
        t
    }
}

fn read_number(src: &Vec<char>, i: usize, negative: bool) -> (r: Result<
    (Token, usize),
    (String, usize),
>)
    requires
        i < src.len(),
        text::is_digit(src@[i as int]),
    ensures
        outcome(r) == number_at(src@, i as int, negative),
        r matches Ok((t, e)) ==> i < e <= src.len(),
        r matches Err((m, p)) ==> i <= p <= src.len() && m@.len() > 0,
{
    proof {
        lemma_messages();
    }
    let ghost s = src@;
    let ghost sign = if negative {
        seq!['-']
    } else {
        Seq::<char>::empty()
    };
    let a = digits_end_of(src, i);
    let mut b = a;
    if a < src.len() && a + 1 < src.len() && src[a] == '.' && text::digit_char(src[a + 1]) {
        b = digits_end_of(src, a + 1);
    }
    assert(b == fraction_end(s, a as int));
    if b < src.len() && (src[b] == 'e' || src[b] == 'E') {
        let mut x = b + 1;
        if x < src.len() && (src[x] == '+' || src[x] == '-') {
            x = x + 1;
        }
        assert(x == exponent_digits(s, b as int));
        if x < src.len() && text::digit_char(src[x]) {
            let z = digits_end_of(src, x);
            let mut t = text::text_of(src, i, b);
            t.push('e');
            let tail = text::text_of(src, b + 1, z);
            t.append(tail.as_str());
            let t = signed(negative, t);
            assert(t@ =~= sign + s.subrange(i as int, b as int) + seq!['e'] + s.subrange(
                b + 1,
                z as int,
            ));
            return Ok((Token::Float(t), z));
        }
        return Err((text::owned("malformed numeric exponent"), i));
    }
    if b > a {
        let t = signed(negative, text::text_of(src, i, b));
        return Ok((Token::Float(t), b));
    }
    let ghost digits = s.subrange(i as int, a as int);
    let tok = match text::read_digits(src, i, a) {
        Some(n) => {
            if negative && n == 0x8000_0000_0000_0000 {
                Token::Int(i64::MIN)
            } else if n <= 0x7fff_ffff_ffff_ffff {
                if negative {
                    Token::Int(-(n as i64))
                } else {
                    Token::Int(n as i64)
                }
            } else {
                let t = signed(negative, text::text_of(src, i, a));
                assert(sign + digits =~= if negative {
                    seq!['-'] + digits
                } else {
                    digits
                });
                Token::Float(t)
            }
        },
        None => {
            let t = signed(negative, text::text_of(src, i, a));
            assert(sign + digits =~= if negative {
                seq!['-'] + digits
            } else {
                digits
            });
            Token::Float(t)
        },
    };
    assert(tok@ == int_token(negative, digits));
    Ok((tok, a))
}

// ---------------------------------------------------------------------------------------------
// Strings
// ---------------------------------------------------------------------------------------------
/// The first byte of a character in UTF-8.
pub open spec fn first_byte(c: char) -> int {
    let n = c as int;
    if n < 0x80 {
        n
    } else if n < 0x800 {
        192 + n / 64
    } else if n < 0x10000 {
        224 + n / 4096
    } else {
        240 + n / 262144
    }
}

/// The lower-case hexadecimal digit of a value below 16.
pub open spec fn hex_digit(n: int) -> char {
    if n < 10 {
        text::digit_of(n as nat)
    } else if n == 10 {
        'a'
    } else if n == 11 {
        'b'
    } else if n == 12 {
        'c'
    } else if n == 13 {
        'd'
    } else if n == 14 {
        'e'
    } else {
        'f'
    }
}

/// How a message shows the character whose code is the byte `b`: printable ASCII as it is, some
/// characters behind a backslash, all others by their code in hexadecimal.
pub open spec fn shown_byte(b: int) -> Seq<char> {
    if b == 9 {
        seq!['\\', 't']
    } else if b == 10 {
        seq!['\\', 'n']
    } else if b == 13 {
        seq!['\\', 'r']
    } else if b == 34 || b == 39 || b == 92 {
        seq!['\\', b as char]
    } else if 0x20 <= b <= 0x7e {
        seq![b as char]
    } else if b < 16 {
        seq!['\\', 'u', '{', hex_digit(b), '}']
    } else {
        seq!['\\', 'u', '{', hex_digit(b / 16), hex_digit(b % 16), '}']
    }
}

fn first_byte_of(c: char) -> (r: u8)
    ensures
        r == first_byte(c),
{
    let n: u32 = c as u32;
    if n < 0x80 {
        n as u8
    } else if n < 0x800 {
        (192 + n / 64) as u8
    } else if n < 0x10000 {
        (224 + n / 4096) as u8
    } else {
        (240 + n / 262144) as u8
    }
}

fn hex_digit_of(n: u8) -> (r: char)
    requires
        n < 16,
    ensures
        r == hex_digit(n as int),
{
    if n == 0 {
        '0'
    } else if n == 1 {
        '1'
    } else if n == 2 {
        '2'
    } else if n == 3 {
        '3'
    } else if n == 4 {
        '4'
    } else if n == 5 {
        '5'
    } else if n == 6 {
        '6'
    } else if n == 7 {
        '7'
    } else if n == 8 {
        '8'
    } else if n == 9 {
        '9'
    } else if n == 10 {
        'a'
    } else if n == 11 {
        'b'
    } else if n == 12 {
        'c'
    } else if n == 13 {
        'd'
    } else if n == 14 {
        'e'
    } else {
        'f'
    }
}

fn show_byte(b: u8) -> (r: String)
    ensures
        r@ == shown_byte(b as int),
{
    let mut s = String::new();
    if b == 9 {
        s.push('\\');
        s.push('t');
    } else if b == 10 {
        s.push('\\');
        s.push('n');
    } else if b == 13 {
        s.push('\\');
        s.push('r');
    } else if b == 34 || b == 39 || b == 92 {
        s.push('\\');
        s.push(b as char);
    } else if 0x20 <= b && b <= 0x7e {
        s.push(b as char);
    } else if b < 16 {
        s.push('\\');
        s.push('u');
        s.push('{');
        s.push(hex_digit_of(b));
        s.push('}');
    } else {
        s.push('\\');
        s.push('u');
        s.push('{');
        s.push(hex_digit_of(b / 16));
        s.push(hex_digit_of(b % 16));
        s.push('}');
    }
    assert(s@ =~= shown_byte(b as int));
    s
}

/// What a backslash and `c` stand for.
pub open spec fn escape_of(c: char) -> Option<char> {
    if c == '"' || c == '\'' || c == '\\' {
        Some(c)
    } else if c == 'n' {
        Some('\n')
    } else if c == 't' {
        Some('\t')
    } else if c == 'r' {
        Some('\r')
    } else {
        None
    }
}

/// The rest of a string from position `j` on, behind `acc`, up to the closing `quote`: its text and
/// the position behind it, or a message.
pub open spec fn string_from(s: Seq<char>, j: int, quote: char, acc: Seq<char>) -> Result<
    (Seq<char>, int),
    Seq<char>,
>
    decreases s.len() - j,
{
    if !(0 <= j < s.len()) {
        Err("unterminated string literal"@)
    } else if s[j] == quote {
        Ok((acc, j + 1))
    } else if s[j] == '\\' {
        if j + 1 >= s.len() {
            Err("unterminated string literal"@)
        } else {
            match escape_of(s[j + 1]) {
                Some(c) => string_from(s, j + 2, quote, acc.push(c)),
                None => Err(
                    "invalid escape sequence `\\"@ + shown_byte(first_byte(s[j + 1])) + "`"@,
                ),
            }
        }
    } else if s[j] == '\n' {
        Err("unterminated string literal (newline before closing quote)"@)
    } else {
        string_from(s, j + 1, quote, acc.push(s[j]))
    }
}

/// The string whose opening quote is at `i`; its errors complain about that position.
pub open spec fn string_at(s: Seq<char>, i: int) -> TokenAt {
    match string_from(s, i + 1, s[i], Seq::empty()) {
        Ok((t, e)) => Ok((TokV::Str(t), e)),
        Err(m) => Err((m, i)),
    }
}

fn read_string(src: &Vec<char>, i: usize) -> (r: Result<(Token, usize), (String, usize)>)
    requires
        i < src.len(),
    ensures
        outcome(r) == string_at(src@, i as int),
        r matches Ok((t, e)) ==> i < e <= src.len(),
        r matches Err((m, p)) ==> i <= p <= src.len() && m@.len() > 0,
{
    let quote: char = src[i];
    let mut out = String::new();
    let mut j: usize = i + 1;
    loop
        invariant
            i < src.len(),
            i < j <= src.len(),
            quote == src@[i as int],
            string_from(src@, i + 1, quote, Seq::empty()) == string_from(
                src@,
                j as int,
                quote,
                out@,
            ),
        decreases src.len() - j,
    {
        proof {
            lemma_messages();
        }
        if j >= src.len() {
            return Err((text::owned("unterminated string literal"), i));
        }
        let c: char = src[j];
        if c == quote {
            return Ok((Token::Str(out), j + 1));
        }
        if c == '\\' {
            if j + 1 >= src.len() {
                return Err((text::owned("unterminated string literal"), i));
            }
            let e: char = src[j + 1];
            if e == '"' || e == '\'' || e == '\\' {
                out.push(e);
            } else if e == 'n' {
                out.push('\n');
            } else if e == 't' {
                out.push('\t');
            } else if e == 'r' {
                out.push('\r');
            } else {
                let shown = show_byte(first_byte_of(e));
                let m = text::join3("invalid escape sequence `\\", shown.as_str(), "`");
                return Err((m, i));
            }
            j = j + 2;
        } else if c == '\n' {
            return Err(
                (text::owned("unterminated string literal (newline before closing quote)"), i),
            );
        } else {
            out.push(c);
            j = j + 1;
        }
    }
}

// ---------------------------------------------------------------------------------------------
// Tokens
// ---------------------------------------------------------------------------------------------
/// The token that one character is by itself.
pub open spec fn mark_of(c: char) -> Option<TokV> {
    if c == '(' {
        Some(TokV::LParen)
    } else if c == ')' {
        Some(TokV::RParen)
    } else if c == '{' {
        Some(TokV::LBrace)
    } else if c == '}' {
        Some(TokV::RBrace)
    } else if c == '[' {
        Some(TokV::LBracket)
    } else if c == ']' {
        Some(TokV::RBracket)
    } else if c == ';' {
        Some(TokV::Semi)
    } else if c == ',' {
        Some(TokV::Comma)
    } else if c == '+' {
        Some(TokV::Plus)
    } else if c == '*' {
        Some(TokV::Star)
    } else if c == '=' {
        Some(TokV::Eq)
    } else if c == '>' {
        Some(TokV::Gt)
    } else {
        None
    }
}

/// The token at position `i`, where no white space or comment starts.
pub open spec fn token_at(s: Seq<char>, i: int) -> TokenAt {
    if !(0 <= i < s.len()) {
        Ok((TokV::Eof, i))
    } else if let Some(t) = mark_of(s[i]) {
        Ok((t, i + 1))
    } else if s[i] == ':' {
        if pair_at(s, i, ':', ':') {
            Ok((TokV::DoubleColon, i + 2))
        } else {
            Ok((TokV::Colon, i + 1))
        }
    } else if s[i] == '<' {
        if pair_at(s, i, '<', '-') {
            Ok((TokV::LeftArrow, i + 2))
        } else {
            Ok((TokV::Lt, i + 1))
        }
    } else if s[i] == '-' {
        if pair_at(s, i, '-', '>') {
            Ok((TokV::Arrow, i + 2))
        } else if i + 1 < s.len() && text::is_digit(s[i + 1]) {
            number_at(s, i + 1, true)
        } else {
            Err(("unexpected character '-' (expected `->` or a number)"@, i + 1))
        }
    } else if s[i] == '"' || s[i] == '\'' {
        string_at(s, i)
    } else if text::is_digit(s[i]) {
        number_at(s, i, false)
    } else if is_word_start(s[i]) {
        Ok((TokV::Ident(s.subrange(i, word_end(s, i))), word_end(s, i)))
    } else {
        Err(("unexpected character `"@ + shown_byte(s[i] as int) + "`"@, i))
    }
}

fn mark_token(c: char) -> (r: Option<Token>)
    ensures
        ordmap::opt_view(r) == mark_of(c),
{
    if c == '(' {
        Some(Token::LParen)
    } else if c == ')' {
        Some(Token::RParen)
    } else if c == '{' {
        Some(Token::LBrace)
    } else if c == '}' {
        Some(Token::RBrace)
    } else if c == '[' {
        Some(Token::LBracket)
    } else if c == ']' {
        Some(Token::RBracket)
    } else if c == ';' {
        Some(Token::Semi)
    } else if c == ',' {
        Some(Token::Comma)
    } else if c == '+' {
        Some(Token::Plus)
    } else if c == '*' {
        Some(Token::Star)
    } else if c == '=' {
        Some(Token::Eq)
    } else if c == '>' {
        Some(Token::Gt)
    } else {
        None
    }
}

fn next_token(src: &Vec<char>, i: usize) -> (r: Result<(Token, usize), (String, usize)>)
    requires
        i <= src.len(),
    ensures
        outcome(r) == token_at(src@, i as int),
        r matches Ok((t, e)) ==> e <= src.len() && (t@ is Eof || i < e),
        r matches Err((m, p)) ==> i <= p <= src.len() && m@.len() > 0,
{
    proof {
        lemma_messages();
    }
    if i >= src.len() {
        return Ok((Token::Eof, i));
    }
    let c: char = src[i];
    match mark_token(c) {
        Some(t) => {
            return Ok((t, i + 1));
        },
        None => {},
    }
    if c == ':' {
        if i + 1 < src.len() && src[i + 1] == ':' {
            return Ok((Token::DoubleColon, i + 2));
        }
        return Ok((Token::Colon, i + 1));
    }
    if c == '<' {
        if i + 1 < src.len() && src[i + 1] == '-' {
            return Ok((Token::LeftArrow, i + 2));
        }
        return Ok((Token::Lt, i + 1));
    }
    if c == '-' {
        if i + 1 < src.len() && src[i + 1] == '>' {
            return Ok((Token::Arrow, i + 2));
        }
        if i + 1 < src.len() && text::digit_char(src[i + 1]) {
            return read_number(src, i + 1, true);
        }
        return Err(
            (text::owned("unexpected character '-' (expected `->` or a number)"), i + 1),
        );
    }
    if c == '"' || c == '\'' {
        return read_string(src, i);
    }
    if text::digit_char(c) {
        return read_number(src, i, false);
    }
    if word_start(c) {
        let e = word_end_of(src, i);
        return Ok((Token::Ident(text::text_of(src, i, e)), e));
    }
    let shown = show_byte(first_byte_of(c));
    Err((text::join3("unexpected character `", shown.as_str(), "`"), i))
}

/// The tokens from position `i` on, behind `acc`.
pub open spec fn lex_from(s: Seq<char>, i: int, acc: Seq<SpanV>) -> Result<Seq<SpanV>, ErrV>
    decreases s.len() - i,
{
    let j = skip_blank(s, i);
    match token_at(s, j) {
        Err((message, p)) => Err(
            ErrV::Lex { message, line: clamp(line_at(s, p)), col: clamp(col_at(s, p)) },
        ),
        Ok((tok, e)) => {
            let out = acc.push(
                SpanV { tok, line: clamp(line_at(s, j)), col: clamp(col_at(s, j)) },
            );
            if tok is Eof {
                Ok(out)
            } else if i < e <= s.len() {
                lex_from(s, e, out)
            } else {
                Ok(out)
            }
        },
    }
}

/// The tokens of a text, closed by `Eof`, or the first error in it.
pub open spec fn lex(s: Seq<char>) -> Result<Seq<SpanV>, ErrV> {
    lex_from(s, 0, Seq::empty())
}

/// Splits `input` into its tokens, closed by `Eof`.
pub fn tokenize(input: &str) -> (r: Result<Vec<Spanned>, NqlError>)
    ensures
        match r {
            Ok(toks) => lex(input@) == Ok::<Seq<SpanV>, ErrV>(ordmap::views(toks@)) && closed(
                ordmap::views(toks@),
            ),
            Err(e) => lex(input@) == Err::<Seq<SpanV>, ErrV>(e@) && parser::sane(e@),
        },
{
    let src = text::chars_of(input);
    let mut at = Place { pos: 0, line: 1, col: 1 };
    let mut out: Vec<Spanned> = Vec::new();
    assert(ordmap::views(out@) =~= Seq::<SpanV>::empty());
    loop
        invariant
            src@ == input@,
            at.is_at(src@),
            lex(src@) == lex_from(src@, at.pos as int, ordmap::views(out@)),
            forall|i: int|
                0 <= i < out.len() ==> (#[trigger] out@[i])@.line >= 1 && out@[i]@.col >= 1
                    && !(out@[i]@.tok is Eof),
        decreases src.len() - at.pos,
    {
        let ghost start = at.pos;
        let j = skip_ws(&src, at.pos);
        at.advance(&src, j);
        let line = at.line;
        let col = at.col;
        proof {
            lemma_position(src@, j as int);
        }
        match next_token(&src, j) {
            Err((m, p)) => {
                at.advance(&src, p);
                proof {
                    lemma_position(src@, p as int);
                }
                return Err(NqlError::Lex { message: m, line: at.line, col: at.col });
            },
            Ok((tok, e)) => {
                let ghost before = ordmap::views(out@);
                let last = match tok {
                    Token::Eof => true,
                    _ => false,
                };
                let item = Spanned { tok, line, col };
                let ghost v = item@;
                out.push(item);
                assert(ordmap::views(out@) =~= before.push(v));
                if last {
                    return Ok(out);
                }
                at.advance(&src, e);
            },
        }
    }
}

/// Tokens that end with `Eof`, hold no other `Eof`, and have positions from 1 on.
pub open spec fn closed(ts: Seq<SpanV>) -> bool {
    &&& ts.len() > 0
    &&& ts.last().tok is Eof
    &&& forall|i: int|
        0 <= i < ts.len() ==> (#[trigger] ts[i]).line >= 1 && ts[i].col >= 1 && (ts[i].tok is Eof
            ==> i == ts.len() - 1)
}

// ---------------------------------------------------------------------------------------------
// Laws
// ---------------------------------------------------------------------------------------------
/// A character that no token or comment goes on over: a semicolon, or white space.
pub open spec fn ends_token(c: char) -> bool {
    c == ';' || is_blank(c)
}

/// `w` holds the text `a` from `off` on, and there ends or has a character that ends a token.
pub open spec fn echoes(a: Seq<char>, w: Seq<char>, off: int) -> bool {
    &&& 0 <= off
    &&& off + a.len() <= w.len()
    &&& forall|k: int| 0 <= k < a.len() ==> #[trigger] a[k] == w[off + k]
    &&& off + a.len() < w.len() ==> ends_token(w[off + a.len()])
}

proof fn lemma_echo_part(a: Seq<char>, w: Seq<char>, off: int, i: int, j: int)
    requires
        echoes(a, w, off),
        0 <= i <= j <= a.len(),
    ensures
        w.subrange(off + i, off + j) == a.subrange(i, j),
{
    assert forall|k: int| 0 <= k < j - i implies w.subrange(off + i, off + j)[k] == a.subrange(
        i,
        j,
    )[k] by {
        assert(a[i + k] == w[off + (i + k)]);
    }
    assert(w.subrange(off + i, off + j) =~= a.subrange(i, j));
}

proof fn lemma_echo_word(a: Seq<char>, w: Seq<char>, off: int, i: int)
    requires
        echoes(a, w, off),
        0 <= i <= a.len(),
    ensures
        i <= word_end(a, i) <= a.len(),
        word_end(w, off + i) == off + word_end(a, i),
        i < a.len() && is_word_char(a[i]) ==> i < word_end(a, i),
    decreases a.len() - i,
{
    if i < a.len() {
        assert(a[i] == w[off + i]);
        if is_word_char(a[i]) {
            lemma_echo_word(a, w, off, i + 1);
        }
    }
}

proof fn lemma_echo_digits(a: Seq<char>, w: Seq<char>, off: int, i: int)
    requires
        echoes(a, w, off),
        0 <= i <= a.len(),
    ensures
        i <= digits_end(a, i) <= a.len(),
        digits_end(w, off + i) == off + digits_end(a, i),
        i < a.len() && text::is_digit(a[i]) ==> i < digits_end(a, i),
    decreases a.len() - i,
{
    if i < a.len() {
        assert(a[i] == w[off + i]);
        if text::is_digit(a[i]) {
            lemma_echo_digits(a, w, off, i + 1);
        }
    }
}

proof fn lemma_echo_fraction(a: Seq<char>, w: Seq<char>, off: int, e: int)
    requires
        echoes(a, w, off),
        0 <= e <= a.len(),
    ensures
        e <= fraction_end(a, e) <= a.len(),
        fraction_end(w, off + e) == off + fraction_end(a, e),
{
    if e < a.len() {
        assert(a[e] == w[off + e]);
        if e + 1 < a.len() {
            assert(a[e + 1] == w[off + (e + 1)]);
            lemma_echo_digits(a, w, off, e + 1);
        }
    }
}

proof fn lemma_echo_number(a: Seq<char>, w: Seq<char>, off: int, i: int, negative: bool)
    requires
        echoes(a, w, off),
        0 <= i < a.len(),
        text::is_digit(a[i]),
    ensures
        number_at(a, i, negative) matches Ok((t, e)) ==> i < e <= a.len() && !(t is Eof)
            && number_at(w, off + i, negative) == Ok::<(TokV, int), (Seq<char>, int)>((t, off + e)),
{
    lemma_echo_digits(a, w, off, i);
    let x = digits_end(a, i);
    lemma_echo_fraction(a, w, off, x);
    let b = fraction_end(a, x);
    lemma_echo_part(a, w, off, i, x);
    lemma_echo_part(a, w, off, i, b);
    if b < a.len() {
        assert(a[b] == w[off + b]);
        if a[b] == 'e' || a[b] == 'E' {
            if b + 1 < a.len() {
                assert(a[b + 1] == w[off + (b + 1)]);
            }
            let y = exponent_digits(a, b);
            assert(exponent_digits(w, off + b) == off + y);
            if y < a.len() {
                assert(a[y] == w[off + y]);
                if text::is_digit(a[y]) {
                    lemma_echo_digits(a, w, off, y);
                    lemma_echo_part(a, w, off, b + 1, digits_end(a, y));
                }
            }
        }
    }
}

proof fn lemma_echo_string(
    a: Seq<char>,
    w: Seq<char>,
    off: int,
    j: int,
    quote: char,
    acc: Seq<char>,
)
    requires
        echoes(a, w, off),
        0 <= j <= a.len(),
    ensures
        string_from(a, j, quote, acc) matches Ok((t, e)) ==> j < e <= a.len() && string_from(
            w,
            off + j,
            quote,
            acc,
        ) == Ok::<(Seq<char>, int), Seq<char>>((t, off + e)),
    decreases a.len() - j,
{
    if j < a.len() {
        assert(a[j] == w[off + j]);
        if a[j] != quote {
            if a[j] == '\\' {
                if j + 1 < a.len() {
                    assert(a[j + 1] == w[off + (j + 1)]);
                    if let Some(c) = escape_of(a[j + 1]) {
                        lemma_echo_string(a, w, off, j + 2, quote, acc.push(c));
                    }
                }
            } else if a[j] != '\n' {
                lemma_echo_string(a, w, off, j + 1, quote, acc.push(a[j]));
            }
        }
    }
}

/// A token of `a` is a token of `w`.
proof fn lemma_echo_token(a: Seq<char>, w: Seq<char>, off: int, i: int)
    requires
        echoes(a, w, off),
        0 <= i < a.len(),
    ensures
        token_at(a, i) matches Ok((t, e)) ==> i < e <= a.len() && !(t is Eof) && token_at(w, off + i)
            == Ok::<(TokV, int), (Seq<char>, int)>((t, off + e)),
{
    assert(a[i] == w[off + i]);
    if i + 1 < a.len() {
        assert(a[i + 1] == w[off + (i + 1)]);
    }
    lemma_echo_word(a, w, off, i);
    lemma_echo_part(a, w, off, i, word_end(a, i));
    if text::is_digit(a[i]) {
        lemma_echo_number(a, w, off, i, false);
    }
    if i + 1 < a.len() && text::is_digit(a[i + 1]) {
        lemma_echo_number(a, w, off, i + 1, true);
    }
    lemma_echo_string(a, w, off, i + 1, a[i], Seq::empty());
}

proof fn lemma_echo_line(a: Seq<char>, w: Seq<char>, off: int, i: int)
    requires
        echoes(a, w, off),
        0 <= i <= a.len(),
    ensures
        i <= line_end(a, i) <= a.len(),
        i < a.len() && a[i] != '\n' ==> i < line_end(a, i),
        line_end(a, i) < a.len() || off + a.len() == w.len() ==> line_end(w, off + i) == off
            + line_end(a, i),
    decreases a.len() - i,
{
    if i < a.len() {
        assert(a[i] == w[off + i]);
        if a[i] != '\n' {
            lemma_echo_line(a, w, off, i + 1);
        }
    }
}

proof fn lemma_echo_block(a: Seq<char>, w: Seq<char>, off: int, i: int)
    requires
        echoes(a, w, off),
        0 <= i <= a.len(),
    ensures
        block_end(a, i) matches Some(e) ==> i < e <= a.len() && block_end(w, off + i) == Some(
            off + e,
        ),
    decreases a.len() - i,
{
    if i + 1 < a.len() {
        assert(a[i] == w[off + i]);
        assert(a[i + 1] == w[off + (i + 1)]);
        if !(a[i] == '*' && a[i + 1] == '/') {
            lemma_echo_block(a, w, off, i + 1);
        }
    }
}

/// Skipping white space and comments from `i` on runs into a line comment that the text ends in.
pub open spec fn trails_off(s: Seq<char>, i: int) -> bool
    decreases s.len() - i,
{
    if 0 <= i < s.len() && is_blank(s[i]) {
        trails_off(s, i + 1)
    } else {
        match comment_end(s, i) {
            Some(e) => if i < e <= s.len() {
                (pair_at(s, i, '-', '-') && e == s.len()) || trails_off(s, e)
            } else {
                false
            },
            None => false,
        }
    }
}

/// The text, read from `i` on, ends in a line comment.
pub open spec fn comment_from(s: Seq<char>, i: int) -> bool
    decreases s.len() - i,
{
    trails_off(s, i) || match token_at(s, skip_blank(s, i)) {
        Ok((tok, e)) => !(tok is Eof) && i < e <= s.len() && comment_from(s, e),
        Err(_) => false,
    }
}

/// The text ends in a line comment: what is written behind it on the same line is part of it.
pub open spec fn ends_in_comment(s: Seq<char>) -> bool {
    comment_from(s, 0)
}

proof fn lemma_skip_bounds(s: Seq<char>, i: int)
    requires
        0 <= i <= s.len(),
    ensures
        i <= skip_blank(s, i) <= s.len(),
    decreases s.len() - i,
{
    if i < s.len() && is_blank(s[i]) {
        lemma_skip_bounds(s, i + 1);
    } else if let Some(e) = comment_end(s, i) {
        if i < e <= s.len() {
            lemma_skip_bounds(s, e);
        }
    }
}

/// What is skipped in `a` is skipped in `w`.
proof fn lemma_echo_skip(a: Seq<char>, w: Seq<char>, off: int, i: int)
    requires
        echoes(a, w, off),
        0 <= i <= a.len(),
        token_at(a, skip_blank(a, i)) is Ok,
        !trails_off(a, i) || off + a.len() == w.len(),
    ensures
        i <= skip_blank(a, i) <= a.len(),
        skip_blank(a, i) < a.len() ==> skip_blank(w, off + i) == off + skip_blank(a, i),
        skip_blank(a, i) == a.len() ==> skip_blank(w, off + i) == skip_blank(w, off + a.len()),
    decreases a.len() - i,
{
    if i < a.len() {
        assert(a[i] == w[off + i]);
        if i + 1 < a.len() {
            assert(a[i + 1] == w[off + (i + 1)]);
        }
        if is_blank(a[i]) {
            lemma_echo_skip(a, w, off, i + 1);
        } else {
            lemma_echo_line(a, w, off, i);
            if i + 2 <= a.len() {
                lemma_echo_block(a, w, off, i + 2);
            }
            match comment_end(a, i) {
                Some(e) => {
                    lemma_echo_skip(a, w, off, e);
                },
                None => {
                    assert(!pair_at(a, i, '/', '*'));
                    assert(comment_end(w, off + i) is None);
                },
            }
        }
    }
}

/// Reading goes on the same wherever in the same white space it starts.
proof fn lemma_lex_same_skip(s: Seq<char>, i: int, j: int, acc: Seq<SpanV>)
    requires
        0 <= i <= j <= s.len(),
        skip_blank(s, i) == skip_blank(s, j),
    ensures
        lex_from(s, i, acc) == lex_from(s, j, acc),
{
    let k = skip_blank(s, j);
    lemma_skip_bounds(s, j);
    if k < s.len() {
        assert(echoes(s, s, 0));
        lemma_echo_token(s, s, 0, k);
    }
}

/// What `a` is read as, `w` is read as from `off` on, and then it goes on behind `a`. Returned are
/// the tokens read so far.
proof fn lemma_echo_lex(
    a: Seq<char>,
    w: Seq<char>,
    off: int,
    i: int,
    acc: Seq<SpanV>,
    before: Seq<SpanV>,
) -> (out: Seq<SpanV>)
    requires
        echoes(a, w, off),
        0 <= i <= a.len(),
        lex_from(a, i, acc) is Ok,
        !comment_from(a, i) || off + a.len() == w.len(),
    ensures
        ({
            let ts = lex_from(a, i, acc)->Ok_0;
            let m = acc.len() as int;
            &&& m < ts.len()
            &&& ts.take(m) == acc
            &&& ts.last().tok is Eof
            &&& out.len() == before.len() + ts.len() - 1 - m
            &&& out.take(before.len() as int) == before
            &&& forall|k: int|
                m <= k < ts.len() - 1 ==> (#[trigger] ts[k]).tok == out[before.len() + k - m].tok
            &&& lex_from(w, off + i, before) == lex_from(w, off + a.len(), out)
        }),
    decreases a.len() - i,
{
    let n = a.len() as int;
    let j = skip_blank(a, i);
    lemma_echo_skip(a, w, off, i);
    if j == n {
        lemma_lex_same_skip(w, off + i, off + n, before);
        let ts = lex_from(a, i, acc)->Ok_0;
        assert(ts.take(acc.len() as int) =~= acc);
        assert(before.take(before.len() as int) =~= before);
        before
    } else {
        lemma_echo_token(a, w, off, j);
        let (tok, e) = token_at(a, j)->Ok_0;
        let here = SpanV { tok, line: clamp(line_at(a, j)), col: clamp(col_at(a, j)) };
        let there = SpanV {
            tok,
            line: clamp(line_at(w, off + j)),
            col: clamp(col_at(w, off + j)),
        };
        let out = lemma_echo_lex(a, w, off, e, acc.push(here), before.push(there));
        let ts = lex_from(a, i, acc)->Ok_0;
        let m = acc.len() as int;
        let b = before.len() as int;
        assert(ts.take(m + 1) == acc.push(here));
        assert(ts.take(m) =~= ts.take(m + 1).take(m));
        assert(acc.push(here).take(m) =~= acc);
        assert(out.take(b + 1) == before.push(there));
        assert(out.take(b) =~= out.take(b + 1).take(b));
        assert(before.push(there).take(b) =~= before);
        assert forall|k: int| m <= k < ts.len() - 1 implies (#[trigger] ts[k]).tok == out[b + k
            - m].tok by {
            if k == m {
                assert(ts[m] == ts.take(m + 1)[m]);
                assert(out[b] == out.take(b + 1)[b]);
            }
        }
        out
    }
}

/// The tokens that a text is read as are closed by `Eof`.
pub proof fn lemma_lex_closed(s: Seq<char>, i: int, acc: Seq<SpanV>)
    requires
        0 <= i <= s.len(),
        forall|k: int|
            0 <= k < acc.len() ==> (#[trigger] acc[k]).line >= 1 && acc[k].col >= 1 && !(
            acc[k].tok is Eof),
    ensures
        lex_from(s, i, acc) matches Ok(ts) ==> closed(ts),
    decreases s.len() - i,
{
    let j = skip_blank(s, i);
    lemma_skip_bounds(s, i);
    lemma_position(s, j);
    if j < s.len() {
        assert(echoes(s, s, 0));
        lemma_echo_token(s, s, 0, j);
        if let Ok((tok, e)) = token_at(s, j) {
            let here = SpanV { tok, line: clamp(line_at(s, j)), col: clamp(col_at(s, j)) };
            lemma_lex_closed(s, e, acc.push(here));
        }
    }
}

/// `x` and `y` are the same tokens, wherever they stand.
pub open spec fn same_tokens(x: Seq<SpanV>, y: Seq<SpanV>) -> bool {
    x.len() == y.len() && forall|k: int| 0 <= k < x.len() ==> (#[trigger] x[k]).tok == y[k].tok
}

/// Two texts with a separator between them, and white space around that, are read as the tokens of
/// the first, the separator where that is a semicolon, and the tokens of the second. The first must
/// not end in a line comment, which would swallow what follows it.
#[verifier::rlimit(40)]
pub proof fn law_joined_texts(a: Seq<char>, c: char, gap: Seq<char>, b: Seq<char>)
    requires
        ends_token(c),
        forall|k: int| 0 <= k < gap.len() ==> is_blank(#[trigger] gap[k]),
        lex(a) is Ok,
        lex(b) is Ok,
        !ends_in_comment(a),
    ensures
        ({
            let (x, y) = (lex(a)->Ok_0, lex(b)->Ok_0);
            let whole = lex(a.push(c) + gap + b);
            let mark = if c == ';' {
                seq![SpanV { tok: TokV::Semi, line: 0, col: 0 }]
            } else {
                Seq::empty()
            };
            &&& closed(x)
            &&& closed(y)
            &&& whole matches Ok(ts) && closed(ts) && same_tokens(ts, x.drop_last() + mark + y)
        }),
{
    let w = a.push(c) + gap + b;
    let n = a.len() as int;
    let off = n + 1 + gap.len();
    let none = Seq::<SpanV>::empty();
    let (x, y) = (lex(a)->Ok_0, lex(b)->Ok_0);
    lemma_lex_closed(a, 0, none);
    lemma_lex_closed(b, 0, none);
    lemma_lex_closed(w, 0, none);
    assert(w[n] == c);
    assert(echoes(a, w, 0));
    assert(echoes(b, w, off)) by {
        assert forall|k: int| 0 <= k < b.len() implies #[trigger] b[k] == w[off + k] by {}
    }
    assert forall|k: int| n + 1 <= k < off implies is_blank(#[trigger] w[k]) by {
        assert(w[k] == gap[k - n - 1]);
    }
    let two = lemma_first_text(a, w, c);
    lemma_blank_gap(w, n + 1, off);
    lemma_lex_same_skip(w, n + 1, off, two);
    let all = lemma_last_text(b, w, off, two);
    let mark = if c == ';' {
        seq![SpanV { tok: TokV::Semi, line: 0, col: 0 }]
    } else {
        Seq::empty()
    };
    let head = x.drop_last() + mark;
    let want = head + y;
    assert(head.len() == two.len());
    assert(all.len() == want.len());
    assert forall|k: int| 0 <= k < all.len() implies (#[trigger] all[k]).tok == want[k].tok by {
        if k < two.len() {
            assert(all.take(two.len() as int)[k] == all[k]);
            assert(want[k] == head[k]);
            assert(two[k].tok == head[k].tok);
        } else {
            let m = k - two.len();
            assert(want[k] == y[m]);
            assert(y[m].tok == all[two.len() + m].tok);
        }
    }
}

/// What is read of a first text and the character behind it.
proof fn lemma_first_text(a: Seq<char>, w: Seq<char>, c: char) -> (out: Seq<SpanV>)
    requires
        echoes(a, w, 0),
        a.len() < w.len(),
        w[a.len() as int] == c,
        ends_token(c),
        lex(a) is Ok,
        !ends_in_comment(a),
    ensures
        ({
            let x = lex(a)->Ok_0;
            let mark = if c == ';' {
                seq![SpanV { tok: TokV::Semi, line: 0, col: 0 }]
            } else {
                Seq::empty()
            };
            &&& x.len() > 0
            &&& same_tokens(out, x.drop_last() + mark)
            &&& lex(w) == lex_from(w, (a.len() + 1) as int, out)
        }),
{
    let n = a.len() as int;
    let none = Seq::<SpanV>::empty();
    let x = lex(a)->Ok_0;
    let one = lemma_echo_lex(a, w, 0, 0, none, none);
    assert(same_tokens(one, x.drop_last())) by {
        assert forall|k: int| 0 <= k < one.len() implies (#[trigger] one[k]).tok
            == x.drop_last()[k].tok by {
            assert(x[k].tok == one[k].tok);
        }
    }
    if c == ';' {
        let semi = SpanV {
            tok: TokV::Semi,
            line: clamp(line_at(w, n)),
            col: clamp(col_at(w, n)),
        };
        assert(comment_end(w, n) is None);
        assert(skip_blank(w, n) == n);
        assert(token_at(w, n) == Ok::<(TokV, int), (Seq<char>, int)>((TokV::Semi, n + 1)));
        one.push(semi)
    } else {
        lemma_lex_same_skip(w, n, n + 1, one);
        assert(x.drop_last() + Seq::<SpanV>::empty() =~= x.drop_last());
        one
    }
}

/// What is read of a text to the end, behind `before`.
proof fn lemma_last_text(b: Seq<char>, w: Seq<char>, off: int, before: Seq<SpanV>) -> (out: Seq<
    SpanV,
>)
    requires
        echoes(b, w, off),
        off + b.len() == w.len(),
        lex(b) is Ok,
    ensures
        ({
            let y = lex(b)->Ok_0;
            &&& lex_from(w, off, before) == Ok::<Seq<SpanV>, ErrV>(out)
            &&& out.len() == before.len() + y.len()
            &&& out.take(before.len() as int) == before
            &&& forall|k: int|
                0 <= k < y.len() ==> (#[trigger] y[k]).tok == out[before.len() + k].tok
        }),
{
    let none = Seq::<SpanV>::empty();
    let y = lex(b)->Ok_0;
    let all = lemma_echo_lex(b, w, off, 0, none, before);
    let n = w.len() as int;
    lemma_skip_bounds(w, n);
    let eof = SpanV { tok: TokV::Eof, line: clamp(line_at(w, n)), col: clamp(col_at(w, n)) };
    let out = all.push(eof);
    assert(lex_from(w, n, all) == Ok::<Seq<SpanV>, ErrV>(out));
    assert(out.take(before.len() as int) =~= all.take(before.len() as int));
    assert forall|k: int| 0 <= k < y.len() implies (#[trigger] y[k]).tok == out[before.len()
        + k].tok by {
        if k < y.len() - 1 {
            assert(y[k].tok == all[before.len() + k].tok);
        } else {
            assert(y.last() == y[k]);
        }
    }
    out
}

proof fn lemma_blank_gap(s: Seq<char>, i: int, j: int)
    requires
        0 <= i <= j <= s.len(),
        forall|k: int| i <= k < j ==> is_blank(#[trigger] s[k]),
    ensures
        skip_blank(s, i) == skip_blank(s, j),
    decreases j - i,
{
    if i < j {
        assert(is_blank(s[i]));
        lemma_blank_gap(s, i + 1, j);
    }
}

/// The number of bytes of the first `n` characters in UTF-8.
pub open spec fn bytes(s: Seq<char>, n: int) -> int
    decreases n,
{
    if n <= 0 {
        0
    } else {
        bytes(s, n - 1) + utf8_width(s[n - 1])
    }
}

/// One position comes before another: on an earlier line, or in an earlier column of the same.
pub open spec fn stands_before(a: SpanV, b: SpanV) -> bool {
    a.line < b.line || (a.line == b.line && a.col < b.col)
}

proof fn lemma_positions_fit(s: Seq<char>, i: int)
    requires
        0 <= i <= s.len(),
    ensures
        line_at(s, i) <= 1 + bytes(s, i),
        col_at(s, i) <= 1 + bytes(s, i),
        bytes(s, i) >= 0,
    decreases i,
{
    if i > 0 {
        lemma_positions_fit(s, i - 1);
    }
}

proof fn lemma_bytes_grow(s: Seq<char>, i: int, j: int)
    requires
        0 <= i <= j <= s.len(),
    ensures
        bytes(s, i) <= bytes(s, j),
    decreases j - i,
{
    if i < j {
        lemma_bytes_grow(s, i, j - 1);
    }
}

proof fn lemma_positions_grow(s: Seq<char>, i: int, j: int)
    requires
        0 <= i < j <= s.len(),
    ensures
        line_at(s, i) < line_at(s, j) || (line_at(s, i) == line_at(s, j) && col_at(s, i) < col_at(
            s,
            j,
        )),
    decreases j - i,
{
    if i < j - 1 {
        lemma_positions_grow(s, i, j - 1);
    }
    lemma_position(s, j - 1);
}

/// What has been read up to `i` stands before all that is read later, in order.
proof fn lemma_lex_positions(s: Seq<char>, i: int, acc: Seq<SpanV>, at: Seq<int>)
    requires
        0 <= i <= s.len(),
        bytes(s, s.len() as int) < usize::MAX,
        at.len() == acc.len(),
        forall|k: int| 0 <= k < at.len() ==> 0 <= #[trigger] at[k] < i,
        forall|k: int, m: int| 0 <= k < m < at.len() ==> #[trigger] at[k] < #[trigger] at[m],
        forall|k: int|
            0 <= k < at.len() ==> (#[trigger] acc[k]).line == line_at(s, at[k]) && acc[k].col
                == col_at(s, at[k]),
    ensures
        lex_from(s, i, acc) matches Ok(ts) ==> forall|k: int, m: int|
            0 <= k < m < ts.len() ==> stands_before(#[trigger] ts[k], #[trigger] ts[m]),
    decreases s.len() - i,
{
    let j = skip_blank(s, i);
    lemma_skip_bounds(s, i);
    lemma_positions_fit(s, j);
    lemma_bytes_grow(s, j, s.len() as int);
    if let Ok((tok, e)) = token_at(s, j) {
        let here = SpanV { tok, line: clamp(line_at(s, j)), col: clamp(col_at(s, j)) };
        let next = acc.push(here);
        let places = at.push(j);
        if j < s.len() {
            assert(echoes(s, s, 0));
            lemma_echo_token(s, s, 0, j);
            assert forall|k: int| 0 <= k < places.len() implies (#[trigger] next[k]).line == line_at(
                s,
                places[k],
            ) && next[k].col == col_at(s, places[k]) by {
                if k < acc.len() {
                    assert(next[k] == acc[k] && places[k] == at[k]);
                } else {
                    lemma_position(s, j);
                }
            }
            lemma_lex_positions(s, e, next, places);
        } else {
            assert forall|k: int, m: int| 0 <= k < m < next.len() implies stands_before(
                #[trigger] next[k],
                #[trigger] next[m],
            ) by {
                assert(places[k] < places[m]);
                lemma_positions_grow(s, places[k], places[m]);
                lemma_position(s, j);
                assert(next[k] == acc[k] && places[k] == at[k]);
                if m < acc.len() {
                    assert(next[m] == acc[m] && places[m] == at[m]);
                }
            }
        }
    }
}

/// Tokens stand in the order in which they are read: the position of each comes before that of every
/// later one, `Eof` included.
pub proof fn law_positions_increase(s: Seq<char>)
    requires
        bytes(s, s.len() as int) < usize::MAX,
    ensures
        lex(s) matches Ok(ts) ==> forall|k: int, m: int|
            0 <= k < m < ts.len() ==> stands_before(#[trigger] ts[k], #[trigger] ts[m]),
{
    lemma_lex_positions(s, 0, Seq::empty(), Seq::empty());
}

} // verus!
