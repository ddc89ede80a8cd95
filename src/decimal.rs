//! Exact decimal numbers, held as a mantissa and a scale, ordered by value.

use std::cmp::Ordering;
use std::str::FromStr;
use vstd::prelude::*;

verus! {

/// Largest mantissa magnitude a decimal can hold (96 bits).
pub const MAX_MANTISSA: i128 = 0xFFFF_FFFF_FFFF_FFFF_FFFF_FFFF;

/// Largest number of digits after the decimal point.
pub const MAX_SCALE: u32 = 28;

/// Ten to the power `n`.
pub open spec fn pow10(n: nat) -> int
    decreases n,
{
    if n == 0 {
        1
    } else {
        10 * pow10((n - 1) as nat)
    }
}

/// The mantissa and scale that the decimal parser reads from a text.
pub uninterp spec fn decimal_text(s: Seq<char>) -> Option<(i128, u32)>;

/// The sum that the decimal type computes for two numbers given as
/// `(mantissa, scale)`, or `None` where it overflows.
pub uninterp spec fn decimal_sum(a: (i128, u32), b: (i128, u32)) -> Option<(i128, u32)>;

/// The difference that the decimal type computes for two numbers given as
/// `(mantissa, scale)`, or `None` where it overflows.
pub uninterp spec fn decimal_difference(a: (i128, u32), b: (i128, u32)) -> Option<(i128, u32)>;

/// An exact decimal number `mantissa / 10^scale`.
/// Two decimals are `==` when mantissa and scale agree; `same_value`
/// compares the numbers they stand for.
#[derive(Clone, Copy, Debug, PartialEq, Eq, Structural)]
pub struct Decimal {
    pub mantissa: i128,
    pub scale: u32,
}

impl Decimal {
    /// A mantissa of at most 96 bits and a scale of at most 28.
    pub open spec fn wf(self) -> bool {
        &&& -MAX_MANTISSA <= self.mantissa <= MAX_MANTISSA
        &&& self.scale <= MAX_SCALE
    }

    /// The number, scaled by `10^28` so that it is an integer.
    pub open spec fn value(self) -> int {
        self.mantissa * pow10((MAX_SCALE - self.scale) as nat)
    }

    /// The decimal that a parsed `(mantissa, scale)` pair stands for.
    pub open spec fn from_parts(p: (i128, u32)) -> Decimal {
        Decimal { mantissa: p.0, scale: p.1 }
    }

    pub fn mantissa(&self) -> (r: i128)
        ensures
            r == self.mantissa,
    {
        self.mantissa
    }

    pub fn scale(&self) -> (r: u32)
        ensures
            r == self.scale,
    {
        self.scale
    }

    /// Whether the mantissa fits 96 bits and the scale is at most 28.
    pub fn is_wf(&self) -> (r: bool)
        ensures
            r == self.wf(),
    {
        -MAX_MANTISSA <= self.mantissa && self.mantissa <= MAX_MANTISSA && self.scale <= MAX_SCALE
    }

    /// Builds `mantissa / 10^scale`.
    pub fn new(mantissa: i128, scale: u32) -> (r: Decimal)
        requires
            -MAX_MANTISSA <= mantissa <= MAX_MANTISSA,
            scale <= MAX_SCALE,
        ensures
            r.wf(),
            r.mantissa == mantissa,
            r.scale == scale,
    {
        Decimal { mantissa, scale }
    }

    /// Reads a decimal number from its text, as in `"0.00001049"`.
    pub fn parse(s: &str) -> (r: Option<Decimal>)
        ensures
            r is Some <==> decimal_text(s@) is Some,
            r matches Some(d) ==> d == Decimal::from_parts(decimal_text(s@)->Some_0) && d.wf(),
    {
        match parse_decimal(s) {
            Some((m, e)) => Some(Decimal { mantissa: m, scale: e }),
            None => None,
        }
    }

    /// Zero.
    pub fn zero() -> (r: Decimal)
        ensures
            r.wf(),
            r.mantissa == 0,
            r.scale == 0,
    {
        Decimal { mantissa: 0, scale: 0 }
    }

    /// The sum of two decimals, or `None` where it does not fit.
    pub fn checked_add(&self, other: &Decimal) -> (r: Option<Decimal>)
        requires
            self.wf(),
            other.wf(),
        ensures
            r is Some <==> decimal_sum((self.mantissa, self.scale), (other.mantissa, other.scale)) is Some,
            r matches Some(d) ==> d.wf() && d == Decimal::from_parts(
                decimal_sum((self.mantissa, self.scale), (other.mantissa, other.scale))->Some_0,
            ),
            self.scale == other.scale && -MAX_MANTISSA <= self.mantissa + other.mantissa <= MAX_MANTISSA ==> r
                == Some(Decimal { mantissa: (self.mantissa + other.mantissa) as i128, scale: self.scale }),
    {
        match add_decimals(self.mantissa, self.scale, other.mantissa, other.scale) {
            Some((m, e)) => Some(Decimal { mantissa: m, scale: e }),
            None => None,
        }
    }

    /// The difference `self - other`, or `None` where it does not fit.
    pub fn checked_sub(&self, other: &Decimal) -> (r: Option<Decimal>)
        requires
            self.wf(),
            other.wf(),
        ensures
            r is Some <==> decimal_difference((self.mantissa, self.scale), (other.mantissa, other.scale)) is Some,
            r matches Some(d) ==> d.wf() && d == Decimal::from_parts(
                decimal_difference((self.mantissa, self.scale), (other.mantissa, other.scale))->Some_0,
            ),
            self.scale == other.scale && -MAX_MANTISSA <= self.mantissa - other.mantissa <= MAX_MANTISSA ==> r
                == Some(Decimal { mantissa: (self.mantissa - other.mantissa) as i128, scale: self.scale }),
    {
        match subtract_decimals(self.mantissa, self.scale, other.mantissa, other.scale) {
            Some((m, e)) => Some(Decimal { mantissa: m, scale: e }),
            None => None,
        }
    }

    /// Compares two decimals by value, whatever their scales.
    pub fn compare(&self, other: &Decimal) -> (r: Ordering)
        requires
            self.wf(),
            other.wf(),
        ensures
            (r == Ordering::Less) == (self.value() < other.value()),
            (r == Ordering::Equal) == (self.value() == other.value()),
            (r == Ordering::Greater) == (self.value() > other.value()),
    {
        compare_decimals(self.mantissa, self.scale, other.mantissa, other.scale)
    }

    /// Whether the two decimals have the same value.
    pub fn same_value(&self, other: &Decimal) -> (r: bool)
        requires
            self.wf(),
            other.wf(),
        ensures
            r == (self.value() == other.value()),
    {
        match self.compare(other) {
            Ordering::Equal => true,
            _ => false,
        }
    }

    /// Whether `self` is strictly smaller than `other`.
    pub fn less_than(&self, other: &Decimal) -> (r: bool)
        requires
            self.wf(),
            other.wf(),
        ensures
            r == (self.value() < other.value()),
    {
        match self.compare(other) {
            Ordering::Less => true,
            _ => false,
        }
    }
}

/// Relies on `rust_decimal::Decimal::from_str`: the mantissa and scale of the
/// parsed number, which the type keeps within 96 bits and a scale of 28.
#[verifier::external_body]
fn parse_decimal(s: &str) -> (r: Option<(i128, u32)>)
    ensures
        r == decimal_text(s@),
        r matches Some(p) ==> -MAX_MANTISSA <= p.0 <= MAX_MANTISSA && p.1 <= MAX_SCALE,
{
    match rust_decimal::Decimal::from_str(s) {
        Ok(d) => Some((d.mantissa(), d.scale())),
        Err(_) => None,
    }
}

/// Relies on `rust_decimal::Decimal::checked_add`, which returns `None` on
/// overflow and adds two numbers of one scale exactly when the sum fits, and on `from_i128_with_scale`, which accepts a mantissa of 96
/// bits and a scale up to 28.
#[verifier::external_body]
fn add_decimals(ma: i128, sa: u32, mb: i128, sb: u32) -> (r: Option<(i128, u32)>)
    requires
        -MAX_MANTISSA <= ma <= MAX_MANTISSA,
        sa <= MAX_SCALE,
        -MAX_MANTISSA <= mb <= MAX_MANTISSA,
        sb <= MAX_SCALE,
    ensures
        r == decimal_sum((ma, sa), (mb, sb)),
        r matches Some(p) ==> -MAX_MANTISSA <= p.0 <= MAX_MANTISSA && p.1 <= MAX_SCALE,
        sa == sb && -MAX_MANTISSA <= ma + mb <= MAX_MANTISSA ==> r == Some(((ma + mb) as i128, sa)),
{
    let a = rust_decimal::Decimal::from_i128_with_scale(ma, sa);
    let b = rust_decimal::Decimal::from_i128_with_scale(mb, sb);
    a.checked_add(b).map(|d| (d.mantissa(), d.scale()))
}

/// Relies on `rust_decimal::Decimal::checked_sub`, which returns `None` on
/// overflow and subtracts two numbers of one scale exactly when the
/// difference fits, and on `from_i128_with_scale`, which accepts a mantissa
/// of 96 bits and a scale up to 28.
#[verifier::external_body]
fn subtract_decimals(ma: i128, sa: u32, mb: i128, sb: u32) -> (r: Option<(i128, u32)>)
    requires
        -MAX_MANTISSA <= ma <= MAX_MANTISSA,
        sa <= MAX_SCALE,
        -MAX_MANTISSA <= mb <= MAX_MANTISSA,
        sb <= MAX_SCALE,
    ensures
        r == decimal_difference((ma, sa), (mb, sb)),
        r matches Some(p) ==> -MAX_MANTISSA <= p.0 <= MAX_MANTISSA && p.1 <= MAX_SCALE,
        sa == sb && -MAX_MANTISSA <= ma - mb <= MAX_MANTISSA ==> r == Some(((ma - mb) as i128, sa)),
{
    let a = rust_decimal::Decimal::from_i128_with_scale(ma, sa);
    let b = rust_decimal::Decimal::from_i128_with_scale(mb, sb);
    a.checked_sub(b).map(|d| (d.mantissa(), d.scale()))
}

/// Relies on `rust_decimal::Decimal::from_i128_with_scale`, which accepts a
/// mantissa of 96 bits and a scale up to 28, and on `Ord::cmp` of
/// `rust_decimal::Decimal`, which orders numbers by value.
#[verifier::external_body]
fn compare_decimals(ma: i128, sa: u32, mb: i128, sb: u32) -> (r: Ordering)
    requires
        -MAX_MANTISSA <= ma <= MAX_MANTISSA,
        sa <= MAX_SCALE,
        -MAX_MANTISSA <= mb <= MAX_MANTISSA,
        sb <= MAX_SCALE,
    ensures
        (r == Ordering::Less) == (Decimal { mantissa: ma, scale: sa }.value() < Decimal {
            mantissa: mb,
            scale: sb,
        }.value()),
        (r == Ordering::Equal) == (Decimal { mantissa: ma, scale: sa }.value() == Decimal {
            mantissa: mb,
            scale: sb,
        }.value()),
        (r == Ordering::Greater) == (Decimal { mantissa: ma, scale: sa }.value() > Decimal {
            mantissa: mb,
            scale: sb,
        }.value()),
{
    let a = rust_decimal::Decimal::from_i128_with_scale(ma, sa);
    let b = rust_decimal::Decimal::from_i128_with_scale(mb, sb);
    a.cmp(&b)
}

} // verus!
