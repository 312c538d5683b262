//! Text: characters, ordering, decimal numerals and case folding over `Seq<char>`.
use vstd::prelude::*;

verus! {

/// `String::push` appends one character.
pub assume_specification[ String::push ](s: &mut String, c: char)
    ensures
        final(s)@ == old(s)@.push(c),
;

/// The characters of `s`, in order.
pub fn chars_of(s: &str) -> (r: Vec<char>)
    ensures
        r@ == s@,
{
    broadcast use vstd::string::group_string_axioms;

    let mut out: Vec<char> = Vec::new();
    for c in it: s.chars()
        invariant
            out@ == it.seq().take(it.index() as int),
            it.seq() == s@,
    {
        out.push(c);
    }
    out
}

/// The characters `v[from..to]` as a string.
pub fn text_of(v: &Vec<char>, from: usize, to: usize) -> (r: String)
    requires
        from <= to <= v.len(),
    ensures
        r@ == v@.subrange(from as int, to as int),
{
    let mut s = String::new();
    let mut i: usize = from;
    while i < to
        invariant
            from <= i <= to <= v.len(),
            s@ == v@.subrange(from as int, i as int),
        decreases to - i,
    {
        s.push(v[i]);
        i = i + 1;
        assert(v@.subrange(from as int, i as int) == v@.subrange(from as int, i - 1).push(v@[i - 1]));
    }
    s
}

/// An owned copy of `s`.
pub fn owned(s: &str) -> (r: String)
    ensures
        r@ == s@,
{
    String::from_str(s)
}

/// `a` followed by `b`.
pub fn join2(a: &str, b: &str) -> (r: String)
    ensures
        r@ == a@ + b@,
{
    let mut s = String::from_str(a);
    s.append(b);
    s
}

/// `a`, `b` and `c`, one after the other.
pub fn join3(a: &str, b: &str, c: &str) -> (r: String)
    ensures
        r@ == a@ + b@ + c@,
{
    let mut s = String::from_str(a);
    s.append(b);
    s.append(c);
    s
}

/// `a`, `b`, `c` and `d`, one after the other.
pub fn join4(a: &str, b: &str, c: &str, d: &str) -> (r: String)
    ensures
        r@ == a@ + b@ + c@ + d@,
{
    let mut s = String::from_str(a);
    s.append(b);
    s.append(c);
    s.append(d);
    s
}

/// Whether two texts hold the same characters.
pub fn text_same(a: &str, b: &str) -> (r: bool)
    ensures
        r == (a@ == b@),
{
    broadcast use vstd::string::group_string_axioms;

    let mut x = a.chars();
    let mut y = b.chars();
    let ghost mut n: int = 0;
    loop
        invariant
            0 <= n <= a@.len(),
            n <= b@.len(),
            a@.take(n) == b@.take(n),
            vstd::std_specs::iter::IteratorSpec::remaining(&x) == a@.skip(n),
            vstd::std_specs::iter::IteratorSpec::remaining(&y) == b@.skip(n),
        decreases a@.len() - n,
    {
        match x.next() {
            Some(c) => {
                assert(a@.skip(n).len() > 0);
                assert(a@[n] == c);
                match y.next() {
                    Some(d) => {
                        assert(b@.skip(n).len() > 0);
                        assert(b@[n] == d);
                        if c != d {
                            return false;
                        }
                        proof {
                            n = n + 1;
                            assert(a@.take(n) == a@.take(n - 1).push(c));
                            assert(b@.take(n) == b@.take(n - 1).push(c));
                        }
                    },
                    None => {
                        assert(b@.skip(n).len() == 0);
                        return false;
                    },
                }
            },
            None => {
                assert(a@.skip(n).len() == 0);
                assert(a@.take(n) == a@);
                match y.next() {
                    Some(_) => {
                        assert(b@.skip(n).len() > 0);
                        return false;
                    },
                    None => {
                        assert(b@.skip(n).len() == 0);
                        assert(b@.take(n) == b@);
                        return true;
                    },
                }
            },
        }
    }
}

// ---------------------------------------------------------------------------------------------
// Lexicographic order
// ---------------------------------------------------------------------------------------------
/// `a` comes before `b` in the order of code points (the order of the UTF-8 encodings too).
pub open spec fn text_lt(a: Seq<char>, b: Seq<char>) -> bool
    decreases a.len(),
{
    if b.len() == 0 {
        false
    } else if a.len() == 0 {
        true
    } else if a[0] != b[0] {
        (a[0] as int) < (b[0] as int)
    } else {
        text_lt(a.drop_first(), b.drop_first())
    }
}

/// No text comes before itself.
pub proof fn lemma_text_lt_irreflexive(a: Seq<char>)
    ensures
        !text_lt(a, a),
    decreases a.len(),
{
    if a.len() > 0 {
        lemma_text_lt_irreflexive(a.drop_first());
    }
}

/// The order of texts is transitive.
pub proof fn lemma_text_lt_transitive(a: Seq<char>, b: Seq<char>, c: Seq<char>)
    requires
        text_lt(a, b),
        text_lt(b, c),
    ensures
        text_lt(a, c),
    decreases a.len(),
{
    if a.len() > 0 && b.len() > 0 && c.len() > 0 && a[0] == b[0] && b[0] == c[0] {
        lemma_text_lt_transitive(a.drop_first(), b.drop_first(), c.drop_first());
    }
}

/// Two texts are equal, or one of them comes first.
pub proof fn lemma_text_lt_total(a: Seq<char>, b: Seq<char>)
    ensures
        text_lt(a, b) || a == b || text_lt(b, a),
    decreases a.len(),
{
    if a.len() > 0 && b.len() > 0 {
        lemma_text_lt_total(a.drop_first(), b.drop_first());
        if a[0] == b[0] && a.drop_first() == b.drop_first() {
            assert(a == seq![a[0]] + a.drop_first());
            assert(b == seq![b[0]] + b.drop_first());
        }
    } else if a.len() == 0 && b.len() == 0 {
        assert(a =~= b);
    }
}

/// Whether `a` comes before `b`.
pub fn text_before(a: &str, b: &str) -> (r: bool)
    ensures
        r == text_lt(a@, b@),
{
    broadcast use vstd::string::group_string_axioms;

    let mut x = a.chars();
    let mut y = b.chars();
    let ghost mut n: int = 0;
    assert(a@.skip(0) == a@ && b@.skip(0) == b@);
    loop
        invariant
            0 <= n <= a@.len(),
            n <= b@.len(),
            text_lt(a@, b@) == text_lt(a@.skip(n), b@.skip(n)),
            vstd::std_specs::iter::IteratorSpec::remaining(&x) == a@.skip(n),
            vstd::std_specs::iter::IteratorSpec::remaining(&y) == b@.skip(n),
        decreases a@.len() - n,
    {
        match y.next() {
            None => {
                assert(b@.skip(n).len() == 0);
                return false;
            },
            Some(d) => {
                assert(b@.skip(n).len() > 0);
                assert(b@.skip(n)[0] == d);
                match x.next() {
                    None => {
                        assert(a@.skip(n).len() == 0);
                        return true;
                    },
                    Some(c) => {
                        assert(a@.skip(n).len() > 0);
                        assert(a@.skip(n)[0] == c);
                        if c != d {
                            return c < d;
                        }
                        proof {
                            assert(a@.skip(n).drop_first() == a@.skip(n + 1));
                            assert(b@.skip(n).drop_first() == b@.skip(n + 1));
                            n = n + 1;
                        }
                    },
                }
            },
        }
    }
}

// ---------------------------------------------------------------------------------------------
// Characters
// ---------------------------------------------------------------------------------------------
/// `0` to `9`.
pub open spec fn is_digit(c: char) -> bool {
    '0' <= c <= '9'
}

/// `c` is an ASCII decimal digit.
pub fn digit_char(c: char) -> (r: bool)
    ensures
        r == is_digit(c),
{
    '0' <= c && c <= '9'
}

/// The value of a digit.
pub open spec fn digit_value(c: char) -> nat {
    (c as int - '0' as int) as nat
}

/// The digit of a value below ten.
pub open spec fn digit_of(n: nat) -> char {
    if n == 0 {
        '0'
    } else if n == 1 {
        '1'
    } else if n == 2 {
        '2'
    } else if n == 3 {
        '3'
    } else if n == 4 {
        '4'
    } else if n == 5 {
        '5'
    } else if n == 6 {
        '6'
    } else if n == 7 {
        '7'
    } else if n == 8 {
        '8'
    } else {
        '9'
    }
}

fn digit_for(n: u64) -> (r: char)
    requires
        n < 10,
    ensures
        r == digit_of(n as nat),
{
    if n == 0 {
        '0'
    } else if n == 1 {
        '1'
    } else if n == 2 {
        '2'
    } else if n == 3 {
        '3'
    } else if n == 4 {
        '4'
    } else if n == 5 {
        '5'
    } else if n == 6 {
        '6'
    } else if n == 7 {
        '7'
    } else if n == 8 {
        '8'
    } else {
        '9'
    }
}

/// An ASCII upper-case letter becomes its lower-case letter; anything else stays.
pub open spec fn lower_char(c: char) -> char {
    if 'A' <= c <= 'Z' {
        ((c as u32) + 32) as char
    } else {
        c
    }
}

fn lowered(c: char) -> (r: char)
    ensures
        r == lower_char(c),
{
    match c {
        'A' => 'a',
        'B' => 'b',
        'C' => 'c',
        'D' => 'd',
        'E' => 'e',
        'F' => 'f',
        'G' => 'g',
        'H' => 'h',
        'I' => 'i',
        'J' => 'j',
        'K' => 'k',
        'L' => 'l',
        'M' => 'm',
        'N' => 'n',
        'O' => 'o',
        'P' => 'p',
        'Q' => 'q',
        'R' => 'r',
        'S' => 's',
        'T' => 't',
        'U' => 'u',
        'V' => 'v',
        'W' => 'w',
        'X' => 'x',
        'Y' => 'y',
        'Z' => 'z',
        _ => c,
    }
}

/// `s` with every ASCII letter in lower case.
pub open spec fn lower(s: Seq<char>) -> Seq<char> {
    Seq::new(s.len(), |i: int| lower_char(s[i]))
}

/// `s` with every ASCII letter in lower case.
pub fn ascii_lower(s: &str) -> (r: String)
    ensures
        r@ == lower(s@),
{
    let v = chars_of(s);
    let mut out = String::new();
    let mut i: usize = 0;
    while i < v.len()
        invariant
            v@ == s@,
            i <= v.len(),
            out@ == lower(s@).take(i as int),
        decreases v.len() - i,
    {
        out.push(lowered(v[i]));
        i = i + 1;
        assert(lower(s@).take(i as int) == lower(s@).take(i - 1).push(lower_char(s@[i - 1])));
    }
    assert(lower(s@).take(i as int) == lower(s@));
    out
}

/// Whether two texts differ in nothing but the case of ASCII letters.
pub fn same_ignoring_case(a: &str, b: &str) -> (r: bool)
    ensures
        r == (lower(a@) == lower(b@)),
{
    let x = ascii_lower(a);
    let y = ascii_lower(b);
    text_same(x.as_str(), y.as_str())
}

// ---------------------------------------------------------------------------------------------
// Decimal numerals
// ---------------------------------------------------------------------------------------------
/// All of `s` is decimal digits.
pub open spec fn all_digits(s: Seq<char>) -> bool {
    forall|i: int| 0 <= i < s.len() ==> is_digit(#[trigger] s[i])
}

/// The number that a run of digits spells.
pub open spec fn dec_value(s: Seq<char>) -> nat
    decreases s.len(),
{
    if s.len() == 0 {
        0
    } else {
        10 * dec_value(s.drop_last()) + digit_value(s.last())
    }
}

/// The decimal numeral of `n`.
pub open spec fn dec_text(n: nat) -> Seq<char>
    decreases n,
{
    if n < 10 {
        seq![digit_of(n)]
    } else {
        dec_text(n / 10).push(digit_of(n % 10))
    }
}

/// The decimal numeral of an integer, with `-` in front of a negative one.
pub open spec fn int_text(n: int) -> Seq<char> {
    if n < 0 {
        seq!['-'] + dec_text((-n) as nat)
    } else {
        dec_text(n as nat)
    }
}

/// A decimal numeral spells the number it was made from, in digits only.
pub proof fn lemma_dec_text_value(n: nat)
    ensures
        dec_value(dec_text(n)) == n,
        all_digits(dec_text(n)),
        dec_text(n).len() > 0,
    decreases n,
{
    if n < 10 {
        assert(dec_text(n).drop_last() =~= Seq::<char>::empty());
        assert(dec_value(Seq::<char>::empty()) == 0);
    } else {
        lemma_dec_text_value(n / 10);
        assert(dec_text(n).drop_last() =~= dec_text(n / 10));
        assert(is_digit(digit_of(n % 10)));
        assert(digit_value(digit_of(n % 10)) == n % 10);
    }
}

/// A longer run of digits spells at least as large a number.
pub proof fn lemma_dec_value_grows(s: Seq<char>, i: int)
    requires
        0 <= i <= s.len(),
    ensures
        dec_value(s.take(i)) <= dec_value(s),
    decreases s.len(),
{
    if i == s.len() {
        assert(s.take(i) == s);
    } else {
        assert(s.drop_last().take(i) == s.take(i));
        lemma_dec_value_grows(s.drop_last(), i);
    }
}

/// The decimal numeral of `n`.
pub fn u64_text(n: u64) -> (r: String)
    ensures
        r@ == dec_text(n as nat),
    decreases n,
{
    if n < 10 {
        let mut s = String::new();
        s.push(digit_for(n));
        assert(s@ == seq![digit_of(n as nat)]);
        s
    } else {
        let mut s = u64_text(n / 10);
        s.push(digit_for(n % 10));
        s
    }
}

/// The decimal numeral of `n`.
pub fn usize_text(n: usize) -> (r: String)
    ensures
        r@ == dec_text(n as nat),
{
    u64_text(n as u64)
}

/// The decimal numeral of `n`, with its sign.
pub fn i64_text(n: i64) -> (r: String)
    ensures
        r@ == int_text(n as int),
{
    if n < 0 {
        let m: u64 = if n == i64::MIN {
            9223372036854775808u64
        } else {
            (-n) as u64
        };
        let t = u64_text(m);
        let r = join2("-", t.as_str());
        proof {
            reveal_strlit("-");
            assert("-"@ =~= seq!['-']);
        }
        r
    } else {
        u64_text(n as u64)
    }
}

/// The value of the run of digits `v[from..to]`, or `None` where it is above `u64::MAX`.
pub fn read_digits(v: &Vec<char>, from: usize, to: usize) -> (r: Option<u64>)
    requires
        from <= to <= v.len(),
        all_digits(v@.subrange(from as int, to as int)),
    ensures
        match r {
            Some(n) => n == dec_value(v@.subrange(from as int, to as int)),
            None => dec_value(v@.subrange(from as int, to as int)) > u64::MAX,
        },
{
    let ghost s = v@.subrange(from as int, to as int);
    let mut acc: u128 = 0;
    let mut i: usize = from;
    while i < to
        invariant
            from <= i <= to <= v.len(),
            s == v@.subrange(from as int, to as int),
            all_digits(s),
            acc == dec_value(s.take(i - from)),
            acc <= u64::MAX,
        decreases to - i,
    {
        let c: char = v[i];
        assert(c == s[i - from]);
        assert(is_digit(s[i - from]));
        let d: u32 = (c as u32) - ('0' as u32);
        acc = acc * 10 + d as u128;
        i = i + 1;
        proof {
            assert(s.take(i - from).drop_last() == s.take(i - from - 1));
            assert(s.take(i - from).last() == c);
            lemma_dec_value_grows(s, i - from);
        }
        if acc > 0xffff_ffff_ffff_ffff {
            return None;
        }
    }
    assert(s.take(i - from) == s);
    Some(acc as u64)
}

/// What reading `s` as an unsigned 64-bit number gives: an optional `+`, then one or more digits.
pub open spec fn parse_u64(s: Seq<char>) -> Option<u64> {
    let digits = if s.len() > 0 && s[0] == '+' {
        s.skip(1)
    } else {
        s
    };
    if digits.len() > 0 && all_digits(digits) && dec_value(digits) <= u64::MAX {
        Some(dec_value(digits) as u64)
    } else {
        None
    }
}

/// Reads `v[from..]` as an unsigned 64-bit number.
pub fn read_u64(v: &Vec<char>, from: usize) -> (r: Option<u64>)
    requires
        from <= v.len(),
    ensures
        r == parse_u64(v@.skip(from as int)),
{
    let ghost s = v@.skip(from as int);
    let mut start: usize = from;
    if from < v.len() && v[from] == '+' {
        start = from + 1;
        assert(s[0] == '+');
        assert(s.skip(1) =~= v@.subrange(start as int, v.len() as int));
    } else {
        assert(s =~= v@.subrange(start as int, v.len() as int));
    }
    let ghost digits = v@.subrange(start as int, v.len() as int);
    if start == v.len() {
        return None;
    }
    let mut i: usize = start;
    while i < v.len()
        invariant
            start <= i <= v.len(),
            digits == v@.subrange(start as int, v.len() as int),
            digits == (if s.len() > 0 && s[0] == '+' {
                s.skip(1)
            } else {
                s
            }),
            s == v@.skip(from as int),
            forall|j: int| 0 <= j < i - start ==> is_digit(#[trigger] digits[j]),
        decreases v.len() - i,
    {
        if !digit_char(v[i]) {
            assert(!is_digit(digits[i - start]));
            return None;
        }
        assert(is_digit(digits[i - start]));
        i = i + 1;
    }
    read_digits(v, start, v.len())
}

// ---------------------------------------------------------------------------------------------
// Lists and white space
// ---------------------------------------------------------------------------------------------
/// The parts, one after the other, with `sep` between each two.
pub open spec fn joined(parts: Seq<Seq<char>>, sep: Seq<char>) -> Seq<char>
    decreases parts.len(),
{
    if parts.len() == 0 {
        Seq::empty()
    } else if parts.len() == 1 {
        parts[0]
    } else {
        joined(parts.drop_last(), sep) + sep + parts.last()
    }
}

/// The parts, one after the other, with `sep` between each two.
pub fn join(parts: &Vec<String>, sep: &str) -> (r: String)
    ensures
        r@ == joined(Seq::new(parts@.len(), |i: int| parts@[i]@), sep@),
{
    let ghost ps = Seq::new(parts@.len(), |i: int| parts@[i]@);
    let mut out = owned("");
    let mut i: usize = 0;
    proof {
        reveal_strlit("");
        assert(out@ =~= joined(ps.take(0), sep@));
    }
    while i < parts.len()
        invariant
            i <= parts.len(),
            ps == Seq::new(parts@.len(), |i: int| parts@[i]@),
            out@ == joined(ps.take(i as int), sep@),
        decreases parts.len() - i,
    {
        proof {
            let next = ps.take(i + 1);
            assert(next.drop_last() =~= ps.take(i as int));
            assert(next.last() == ps[i as int]);
            if i == 0 {
                assert(out@ + ps[0] =~= ps[0]);
            }
        }
        if i > 0 {
            out.append(sep);
        }
        out.append(parts[i].as_str());
        i = i + 1;
    }
    assert(ps.take(i as int) =~= ps);
    out
}

/// The character is white space, as Unicode has it.
pub open spec fn is_white(c: char) -> bool {
    ||| '\u{9}' <= c <= '\u{d}'
    ||| c == ' '
    ||| c == '\u{85}'
    ||| c == '\u{a0}'
    ||| c == '\u{1680}'
    ||| '\u{2000}' <= c <= '\u{200a}'
    ||| c == '\u{2028}'
    ||| c == '\u{2029}'
    ||| c == '\u{202f}'
    ||| c == '\u{205f}'
    ||| c == '\u{3000}'
}

fn white(c: char) -> (r: bool)
    ensures
        r == is_white(c),
{
    ('\u{9}' <= c && c <= '\u{d}') || c == ' ' || c == '\u{85}' || c == '\u{a0}' || c
        == '\u{1680}' || ('\u{2000}' <= c && c <= '\u{200a}') || c == '\u{2028}' || c
        == '\u{2029}' || c == '\u{202f}' || c == '\u{205f}' || c == '\u{3000}'
}

/// Where the white space that starts at `i` ends.
pub open spec fn white_end(s: Seq<char>, i: int) -> int
    decreases s.len() - i,
{
    if 0 <= i < s.len() && is_white(s[i]) {
        white_end(s, i + 1)
    } else {
        i
    }
}

/// Where the white space that ends at `j` starts, not before `i`.
pub open spec fn white_start(s: Seq<char>, i: int, j: int) -> int
    decreases j - i,
{
    if 0 <= i < j <= s.len() && is_white(s[j - 1]) {
        white_start(s, i, j - 1)
    } else {
        j
    }
}

/// The text without the white space at both ends.
pub open spec fn trimmed(s: Seq<char>) -> Seq<char> {
    let i = white_end(s, 0);
    s.subrange(i, white_start(s, i, s.len() as int))
}

/// The text without the white space at both ends.
pub fn trim(s: &str) -> (r: String)
    ensures
        r@ == trimmed(s@),
{
    let v = chars_of(s);
    let mut i: usize = 0;
    while i < v.len() && white(v[i])
        invariant
            i <= v.len(),
            white_end(v@, 0) == white_end(v@, i as int),
        decreases v.len() - i,
    {
        i = i + 1;
    }
    let mut j: usize = v.len();
    while i < j && white(v[j - 1])
        invariant
            i <= j <= v.len(),
            white_start(v@, i as int, v@.len() as int) == white_start(v@, i as int, j as int),
        decreases j - i,
    {
        j = j - 1;
    }
    text_of(&v, i, j)
}

/// Where the run of `c` that starts at `i` ends.
pub open spec fn run_end(s: Seq<char>, c: char, i: int) -> int
    decreases s.len() - i,
{
    if 0 <= i < s.len() && s[i] == c {
        run_end(s, c, i + 1)
    } else {
        i
    }
}

/// The text without the run of `c` that it starts with.
pub open spec fn without_leading(s: Seq<char>, c: char) -> Seq<char> {
    s.skip(run_end(s, c, 0))
}

/// The text without the run of `c` that it starts with.
pub fn trim_start(s: &str, c: char) -> (r: String)
    ensures
        r@ == without_leading(s@, c),
{
    let v = chars_of(s);
    let mut i: usize = 0;
    while i < v.len() && v[i] == c
        invariant
            i <= v.len(),
            run_end(v@, c, 0) == run_end(v@, c, i as int),
        decreases v.len() - i,
    {
        i = i + 1;
    }
    let r = text_of(&v, i, v.len());
    assert(v@.subrange(i as int, v@.len() as int) =~= v@.skip(i as int));
    r
}

// ---------------------------------------------------------------------------------------------
// Lines
// ---------------------------------------------------------------------------------------------
/// How a character is written on a line: a line break by its escape, any other as it is.
pub open spec fn on_line(c: char) -> Seq<char> {
    if c == '\n' {
        seq!['\\', 'n']
    } else if c == '\r' {
        seq!['\\', 'r']
    } else {
        seq![c]
    }
}

/// The text on one line: its line breaks are written as escapes.
pub open spec fn one_line(s: Seq<char>) -> Seq<char>
    decreases s.len(),
{
    if s.len() == 0 {
        Seq::empty()
    } else {
        one_line(s.drop_last()) + on_line(s.last())
    }
}

/// `s` breaks no line.
pub open spec fn is_line(s: Seq<char>) -> bool {
    forall|i: int| 0 <= i < s.len() ==> #[trigger] s[i] != '\n' && s[i] != '\r'
}

/// The text on one line.
pub fn in_one_line(s: &str) -> (r: String)
    ensures
        r@ == one_line(s@),
{
    let v = chars_of(s);
    let mut out = String::new();
    let mut i: usize = 0;
    assert(out@ =~= one_line(s@.take(0)));
    while i < v.len()
        invariant
            i <= v.len(),
            v@ == s@,
            out@ == one_line(s@.take(i as int)),
        decreases v.len() - i,
    {
        let c: char = v[i];
        let ghost before = out@;
        if c == '\n' {
            out.push('\\');
            out.push('n');
        } else if c == '\r' {
            out.push('\\');
            out.push('r');
        } else {
            out.push(c);
        }
        i = i + 1;
        assert(s@.take(i as int).drop_last() =~= s@.take(i - 1));
        assert(out@ =~= before + on_line(c));
    }
    assert(s@.take(i as int) =~= s@);
    out
}

/// A text on one line breaks no line, and a text that breaks none stays as it is.
pub proof fn law_one_line(s: Seq<char>)
    ensures
        is_line(one_line(s)),
        is_line(s) ==> one_line(s) == s,
    decreases s.len(),
{
    if s.len() > 0 {
        law_one_line(s.drop_last());
        if is_line(s) {
            assert forall|i: int| 0 <= i < s.drop_last().len() implies #[trigger] s.drop_last()[i]
                != '\n' && s.drop_last()[i] != '\r' by {
                assert(s[i] == s.drop_last()[i]);
            }
            assert(s[s.len() - 1] == s.last());
            assert(one_line(s) =~= s);
        }
    }
}

/// One text comes before another exactly if, behind a beginning that they share, it ends and the other
/// goes on, or it has the smaller character.
pub proof fn law_text_order(a: Seq<char>, b: Seq<char>)
    ensures
        text_lt(a, b) <==> exists|p: int|
            0 <= p <= a.len() && p < b.len() && #[trigger] a.take(p) == b.take(p) && (p == a.len() || (
            a[p] as int) < (b[p] as int)),
    decreases a.len(),
{
    if b.len() > 0 && a.len() > 0 && a[0] == b[0] {
        let (c, d) = (a.drop_first(), b.drop_first());
        law_text_order(c, d);
        if text_lt(a, b) {
            let p = choose|p: int|
                0 <= p <= c.len() && p < d.len() && #[trigger] c.take(p) == d.take(p) && (p == c.len()
                    || (c[p] as int) < (d[p] as int));
            assert(a.take(p + 1) =~= seq![a[0]] + c.take(p));
            assert(b.take(p + 1) =~= seq![b[0]] + d.take(p));
            assert(a.take(p + 1) == b.take(p + 1));
        }
        if exists|p: int|
            0 <= p <= a.len() && p < b.len() && #[trigger] a.take(p) == b.take(p) && (p == a.len() || (
            a[p] as int) < (b[p] as int)) {
            let p = choose|p: int|
                0 <= p <= a.len() && p < b.len() && #[trigger] a.take(p) == b.take(p) && (p == a.len()
                    || (a[p] as int) < (b[p] as int));
            assert(p > 0);
            assert(c.take(p - 1) =~= a.take(p).drop_first());
            assert(d.take(p - 1) =~= b.take(p).drop_first());
            assert(c.take(p - 1) == d.take(p - 1));
        }
    } else {
        assert(a.take(0) =~= b.take(0));
        if exists|p: int|
            0 <= p <= a.len() && p < b.len() && #[trigger] a.take(p) == b.take(p) && (p == a.len() || (
            a[p] as int) < (b[p] as int)) {
            let p = choose|p: int|
                0 <= p <= a.len() && p < b.len() && #[trigger] a.take(p) == b.take(p) && (p == a.len()
                    || (a[p] as int) < (b[p] as int));
            if p > 0 {
                assert(a.take(p)[0] == b.take(p)[0]);
            }
        }
    }
}

/// Lower case keeps the length and every character but the capitals of ASCII, each of which becomes
/// its small letter; a text in lower case stays as it is.
pub proof fn law_lower(s: Seq<char>, i: int)
    requires
        0 <= i < s.len(),
    ensures
        lower(s).len() == s.len(),
        'A' <= s[i] <= 'Z' ==> lower(s)[i] as int == s[i] as int + 32,
        !('A' <= s[i] <= 'Z') ==> lower(s)[i] == s[i],
        lower(lower(s)) == lower(s),
{
    assert(lower(lower(s)) =~= lower(s));
}

proof fn lemma_white_end(s: Seq<char>, i: int)
    requires
        0 <= i <= s.len(),
    ensures
        i <= white_end(s, i) <= s.len(),
        forall|k: int| i <= k < white_end(s, i) ==> is_white(#[trigger] s[k]),
        white_end(s, i) < s.len() ==> !is_white(s[white_end(s, i)]),
    decreases s.len() - i,
{
    if i < s.len() && is_white(s[i]) {
        lemma_white_end(s, i + 1);
    }
}

proof fn lemma_white_start(s: Seq<char>, i: int, j: int)
    requires
        0 <= i <= j <= s.len(),
    ensures
        i <= white_start(s, i, j) <= j,
        forall|k: int| white_start(s, i, j) <= k < j ==> is_white(#[trigger] s[k]),
        white_start(s, i, j) > i ==> !is_white(s[white_start(s, i, j) - 1]),
    decreases j - i,
{
    if i < j && is_white(s[j - 1]) {
        lemma_white_start(s, i, j - 1);
    }
}

/// Trimming takes white space away at both ends, all of it, and nothing else.
pub proof fn law_trimmed(s: Seq<char>) -> (cut: (int, int))
    ensures
        0 <= cut.0 <= cut.1 <= s.len(),
        trimmed(s) == s.subrange(cut.0, cut.1),
        forall|k: int| 0 <= k < cut.0 || cut.1 <= k < s.len() ==> is_white(#[trigger] s[k]),
        trimmed(s).len() > 0 ==> !is_white(trimmed(s)[0]) && !is_white(trimmed(s).last()),
{
    let i = white_end(s, 0);
    let j = white_start(s, i, s.len() as int);
    lemma_white_end(s, 0);
    lemma_white_start(s, i, s.len() as int);
    (i, j)
}

proof fn lemma_run_end(s: Seq<char>, c: char, i: int)
    requires
        0 <= i <= s.len(),
    ensures
        i <= run_end(s, c, i) <= s.len(),
        forall|k: int| i <= k < run_end(s, c, i) ==> #[trigger] s[k] == c,
        run_end(s, c, i) < s.len() ==> s[run_end(s, c, i)] != c,
    decreases s.len() - i,
{
    if i < s.len() && s[i] == c {
        lemma_run_end(s, c, i + 1);
    }
}

/// A text without its leading run of a character does not start with it; what was taken away is that
/// character only.
pub proof fn law_without_leading(s: Seq<char>, c: char) -> (n: int)
    ensures
        0 <= n <= s.len(),
        without_leading(s, c) == s.skip(n),
        forall|k: int| 0 <= k < n ==> #[trigger] s[k] == c,
        without_leading(s, c).len() > 0 ==> without_leading(s, c)[0] != c,
{
    lemma_run_end(s, c, 0);
    run_end(s, c, 0)
}

/// A number in writing is read back as that number, with a plus in front of it or not.
pub proof fn law_number_text_reads_back(n: u64)
    ensures
        parse_u64(dec_text(n as nat)) == Some(n),
        parse_u64(seq!['+'] + dec_text(n as nat)) == Some(n),
{
    lemma_dec_text_value(n as nat);
    let d = dec_text(n as nat);
    assert(is_digit(d[0]));
    assert((seq!['+'] + d).skip(1) =~= d);
}

/// A text is put on one line character by character: a line feed becomes a backslash and an `n`, a
/// carriage return a backslash and an `r`, anything else stays.
pub proof fn law_one_line_by_character(a: Seq<char>, b: Seq<char>, c: char)
    ensures
        one_line(a + b) == one_line(a) + one_line(b),
        one_line(seq!['\n']) == seq!['\\', 'n'],
        one_line(seq!['\r']) == seq!['\\', 'r'],
        c != '\n' && c != '\r' ==> one_line(seq![c]) == seq![c],
    decreases b.len(),
{
    let none = Seq::<char>::empty();
    assert(one_line(none) =~= none);
    assert(seq!['\n'].drop_last() =~= none);
    assert(seq!['\r'].drop_last() =~= none);
    assert(seq![c].drop_last() =~= none);
    assert(one_line(seq!['\n']) =~= seq!['\\', 'n']);
    assert(one_line(seq!['\r']) =~= seq!['\\', 'r']);
    if c != '\n' && c != '\r' {
        assert(one_line(seq![c]) =~= seq![c]);
    }
    if b.len() == 0 {
        assert(a + b =~= a);
        assert(one_line(a) + one_line(b) =~= one_line(a));
    } else {
        law_one_line_by_character(a, b.drop_last(), c);
        assert((a + b).drop_last() =~= a + b.drop_last());
        assert((a + b).last() == b.last());
        assert(one_line(a) + one_line(b.drop_last()) + on_line(b.last()) =~= one_line(a) + (one_line(
            b.drop_last(),
        ) + on_line(b.last())));
    }
}

} // verus!
