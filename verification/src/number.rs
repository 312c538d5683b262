//! Floating-point values as bit patterns: which are equal, which is greater, which are finite.
//!
//! A single is the 32-bit and a double the 64-bit IEEE-754 pattern. The magnitude is what is left
//! without the sign bit; magnitudes above that of infinity are not numbers (NaN).
use vstd::prelude::*;

verus! {

/// A number whose floating-point form is asked for.
#[derive(Debug, PartialEq, Eq)]
pub enum Numeral {
    /// An integer of a program; its single is the nearest one to the integer.
    Int(i64),
    /// A decimal numeral as spelled: an optional `-`, digits, an optional fraction and an optional
    /// exponent; its single is the one nearest to its double.
    Decimal(String),
    /// An integer of a JSON document; its single is the one nearest to its double.
    Wide(i128),
    /// A double; its single is the nearest one to it.
    Double(u64),
    /// A single; its double is equal to it.
    Single(u32),
}

/// The floating-point forms of a number: its double, its single, and its double in writing.
#[derive(Debug, PartialEq, Eq)]
pub struct Form {
    pub double: u64,
    pub single: u32,
    pub shown: String,
}

#[verifier::ext_equal]
pub enum NumeralV {
    Int(i64),
    Decimal(Seq<char>),
    Wide(i128),
    Double(u64),
    Single(u32),
}

#[verifier::ext_equal]
pub struct FormV {
    pub double: u64,
    pub single: u32,
    pub shown: Seq<char>,
}

impl View for Numeral {
    type V = NumeralV;

    open spec fn view(&self) -> NumeralV {
        match *self {
            Numeral::Int(n) => NumeralV::Int(n),
            Numeral::Decimal(s) => NumeralV::Decimal(s@),
            Numeral::Wide(n) => NumeralV::Wide(n),
            Numeral::Double(x) => NumeralV::Double(x),
            Numeral::Single(x) => NumeralV::Single(x),
        }
    }
}

impl View for Form {
    type V = FormV;

    open spec fn view(&self) -> FormV {
        FormV { double: self.double, single: self.single, shown: self.shown@ }
    }
}

/// `f` gives each number the form that `g` says.
pub open spec fn forms_by<F: Fn(Numeral) -> Form>(f: F, g: spec_fn(NumeralV) -> FormV) -> bool {
    forall|n: Numeral, r: Form| #[trigger] call_ensures(f, (n,), r) ==> r@ == g(n@)
}

/// `f` takes any number.
pub open spec fn takes_numerals<F: Fn(Numeral) -> Form>(f: F) -> bool {
    forall|n: Numeral| call_requires(f, (n,))
}

/// The single `0.0`.
pub const SINGLE_ZERO: u32 = 0;

/// The single `1.0`.
pub const SINGLE_ONE: u32 = 0x3f80_0000;

/// The double `1.0`.
pub const DOUBLE_ONE: u64 = 0x3ff0_0000_0000_0000;

/// The double `-1.0`.
pub const DOUBLE_MINUS_ONE: u64 = 0xbff0_0000_0000_0000;

/// The magnitude of a single: its bits without the sign.
pub open spec fn single_magnitude(x: u32) -> int {
    if x >= 0x8000_0000 {
        x - 0x8000_0000
    } else {
        x as int
    }
}

/// `x` is not a number.
pub open spec fn single_is_nan(x: u32) -> bool {
    single_magnitude(x) > 0x7f80_0000
}

/// `x` is neither infinite nor NaN.
pub open spec fn single_is_finite(x: u32) -> bool {
    single_magnitude(x) < 0x7f80_0000
}

/// An integer that orders singles as their values do; both zeros have 0.
pub open spec fn single_rank(x: u32) -> int {
    if x >= 0x8000_0000 {
        -single_magnitude(x)
    } else {
        single_magnitude(x)
    }
}

/// `a > b` as floating-point values; false where either is NaN.
pub open spec fn single_gt(a: u32, b: u32) -> bool {
    !single_is_nan(a) && !single_is_nan(b) && single_rank(a) > single_rank(b)
}

/// `a == b` as floating-point values; false where either is NaN.
pub open spec fn single_eq(a: u32, b: u32) -> bool {
    !single_is_nan(a) && !single_is_nan(b) && single_rank(a) == single_rank(b)
}

/// The magnitude of a double: its bits without the sign.
pub open spec fn double_magnitude(x: u64) -> int {
    if x >= 0x8000_0000_0000_0000 {
        x - 0x8000_0000_0000_0000
    } else {
        x as int
    }
}

/// `x` is not a number.
pub open spec fn double_is_nan(x: u64) -> bool {
    double_magnitude(x) > 0x7ff0_0000_0000_0000
}

/// `x` is neither infinite nor NaN.
pub open spec fn double_is_finite(x: u64) -> bool {
    double_magnitude(x) < 0x7ff0_0000_0000_0000
}

/// An integer that orders doubles as their values do; both zeros have 0.
pub open spec fn double_rank(x: u64) -> int {
    if x >= 0x8000_0000_0000_0000 {
        -double_magnitude(x)
    } else {
        double_magnitude(x)
    }
}

/// `a == b` as floating-point values; false where either is NaN.
pub open spec fn double_eq(a: u64, b: u64) -> bool {
    !double_is_nan(a) && !double_is_nan(b) && double_rank(a) == double_rank(b)
}

fn single_parts(x: u32) -> (r: (bool, u32))
    ensures
        r.1 == single_magnitude(x),
        r.0 == (x >= 0x8000_0000),
{
    if x >= 0x8000_0000 {
        (true, x - 0x8000_0000)
    } else {
        (false, x)
    }
}

fn single_rank_of(x: u32) -> (r: i64)
    ensures
        r == single_rank(x),
{
    let (negative, magnitude) = single_parts(x);
    if negative {
        -(magnitude as i64)
    } else {
        magnitude as i64
    }
}

/// Whether `x` is NaN.
pub fn single_nan(x: u32) -> (r: bool)
    ensures
        r == single_is_nan(x),
{
    single_parts(x).1 > 0x7f80_0000
}

/// Whether `x` is neither infinite nor NaN.
pub fn single_finite(x: u32) -> (r: bool)
    ensures
        r == single_is_finite(x),
{
    single_parts(x).1 < 0x7f80_0000
}

/// Whether `a > b`.
pub fn single_greater(a: u32, b: u32) -> (r: bool)
    ensures
        r == single_gt(a, b),
{
    !single_nan(a) && !single_nan(b) && single_rank_of(a) > single_rank_of(b)
}

/// Whether `a == b`.
pub fn single_same(a: u32, b: u32) -> (r: bool)
    ensures
        r == single_eq(a, b),
{
    !single_nan(a) && !single_nan(b) && single_rank_of(a) == single_rank_of(b)
}

fn double_parts(x: u64) -> (r: (bool, u64))
    ensures
        r.1 == double_magnitude(x),
        r.0 == (x >= 0x8000_0000_0000_0000),
{
    if x >= 0x8000_0000_0000_0000 {
        (true, x - 0x8000_0000_0000_0000)
    } else {
        (false, x)
    }
}

/// Whether `x` is neither infinite nor NaN.
pub fn double_finite(x: u64) -> (r: bool)
    ensures
        r == double_is_finite(x),
{
    double_parts(x).1 < 0x7ff0_0000_0000_0000
}

/// Whether `a == b`.
pub fn double_same(a: u64, b: u64) -> (r: bool)
    ensures
        r == double_eq(a, b),
{
    let (an, am) = double_parts(a);
    let (bn, bm) = double_parts(b);
    am <= 0x7ff0_0000_0000_0000 && bm <= 0x7ff0_0000_0000_0000 && am == bm && (an == bn || am == 0)
}

/// How singles compare, said of their bits: positive ones up to infinity as their bits, negative ones
/// the other way round, every negative one below every positive one, both zeros equal, and a NaN with
/// nothing.
pub proof fn law_singles_compare_by_value(a: u32, b: u32)
    ensures
        a <= 0x7f80_0000 && b <= 0x7f80_0000 ==> (single_gt(a, b) <==> a > b),
        0x8000_0000 <= a <= 0xff80_0000 && 0x8000_0000 <= b <= 0xff80_0000 ==> (single_gt(a, b) <==> a
            < b),
        a <= 0x7f80_0000 && 0x8000_0000 <= b <= 0xff80_0000 ==> (single_gt(a, b) <==> a > 0 || b
            > 0x8000_0000),
        0x8000_0000 <= a <= 0xff80_0000 && b <= 0x7f80_0000 ==> !single_gt(a, b),
        single_eq(0, 0x8000_0000),
        0x7f80_0000 < a < 0x8000_0000 || 0xff80_0000 < a ==> single_is_nan(a) && !single_gt(a, b)
            && !single_gt(b, a) && !single_eq(a, b) && !single_eq(b, a),
        a <= 0x7f80_0000 || 0x8000_0000 <= a <= 0xff80_0000 ==> !single_is_nan(a) && single_eq(a, a),
        single_eq(a, b) ==> a == b || (a == 0 && b == 0x8000_0000) || (a == 0x8000_0000 && b == 0),
{
}

/// When doubles are equal, said of their bits: they are the same and no NaN, or both are zeros.
pub proof fn law_doubles_equal_by_value(a: u64, b: u64)
    ensures
        double_eq(a, b) <==> (a == b && (a <= 0x7ff0_0000_0000_0000 || 0x8000_0000_0000_0000 <= a
            <= 0xfff0_0000_0000_0000)) || (a == 0 && b == 0x8000_0000_0000_0000) || (a
            == 0x8000_0000_0000_0000 && b == 0),
{
}

} // verus!
