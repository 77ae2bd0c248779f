//! The numbers that geometry and animation compute with.
//!
//! Layout, hit-testing and easing need numbers with fractions on one target and whole pixels
//! on another. They are written against [`Scalar`], which names the operations they use, and
//! what they compute is stated in terms of those operations. [`Whole`] is the arithmetic of
//! whole pixels; a target with a floating-point unit brings its own.
use crate::chars::{i32_value, parse_i32, to_chars};
use vstd::prelude::*;

verus! {

/// Some function of its arguments, one for each number `op`, of which nothing more is known.
pub open spec fn some_function<A, B>(op: nat, args: A) -> B {
    let f: spec_fn(nat, A) -> B = arbitrary();
    f(op, args)
}

/// A number. Each operation is a function of its operands, which a verified implementation
/// names by giving the functions that start with `s_`. One from outside gives the operations
/// alone: of such a number nothing more is known than that each is some function of its operands.
pub trait Scalar: Sized + Copy {
    /// What [`Scalar::whole`] returns.
    open spec fn s_whole(n: u64) -> Self {
        some_function(0, n)
    }

    /// What [`Scalar::ratio`] returns.
    open spec fn s_ratio(n: u32, d: u32) -> Self {
        some_function(1, (n, d))
    }

    /// What [`Scalar::plus`] returns.
    open spec fn s_plus(self, other: Self) -> Self {
        some_function(2, (self, other))
    }

    /// What [`Scalar::minus`] returns.
    open spec fn s_minus(self, other: Self) -> Self {
        some_function(3, (self, other))
    }

    /// What [`Scalar::times`] returns.
    open spec fn s_times(self, other: Self) -> Self {
        some_function(4, (self, other))
    }

    /// What [`Scalar::over`] returns.
    open spec fn s_over(self, other: Self) -> Self {
        some_function(5, (self, other))
    }

    /// What [`Scalar::less`] returns.
    open spec fn s_less(self, other: Self) -> bool {
        some_function(6, (self, other))
    }

    /// What [`Scalar::at_most`] returns.
    open spec fn s_at_most(self, other: Self) -> bool {
        some_function(7, (self, other))
    }

    /// What [`Scalar::larger`] returns.
    open spec fn s_larger(self, other: Self) -> Self {
        some_function(8, (self, other))
    }

    /// What [`Scalar::to_u32`] returns.
    open spec fn s_to_u32(self) -> u32 {
        some_function(9, self)
    }

    /// What [`Scalar::to_i32`] returns.
    open spec fn s_to_i32(self) -> i32 {
        some_function(10, self)
    }

    /// What [`Scalar::wrap`] returns.
    open spec fn s_wrap(self, period: Self) -> Self {
        some_function(11, (self, period))
    }

    /// What [`Scalar::parse`] returns.
    open spec fn s_parse(s: Seq<char>) -> Option<Self> {
        some_function(12, s)
    }

    /// The whole number `n`.
    fn whole(n: u64) -> (r: Self)
        ensures
            r == Self::s_whole(n),
    ;

    /// The fraction `n / d`.
    fn ratio(n: u32, d: u32) -> (r: Self)
        requires
            d > 0,
        ensures
            r == Self::s_ratio(n, d),
    ;

    /// The sum.
    fn plus(self, other: Self) -> (r: Self)
        ensures
            r == self.s_plus(other),
    ;

    /// The difference.
    fn minus(self, other: Self) -> (r: Self)
        ensures
            r == self.s_minus(other),
    ;

    /// The product.
    fn times(self, other: Self) -> (r: Self)
        ensures
            r == self.s_times(other),
    ;

    /// The quotient.
    fn over(self, other: Self) -> (r: Self)
        ensures
            r == self.s_over(other),
    ;

    /// Whether `self < other`.
    fn less(self, other: Self) -> (r: bool)
        ensures
            r == self.s_less(other),
    ;

    /// Whether `self <= other`.
    fn at_most(self, other: Self) -> (r: bool)
        ensures
            r == self.s_at_most(other),
    ;

    /// The larger of the two.
    fn larger(self, other: Self) -> (r: Self)
        ensures
            r == self.s_larger(other),
    ;

    /// The whole part, kept within the range of `u32`.
    fn to_u32(self) -> (r: u32)
        ensures
            r == self.s_to_u32(),
    ;

    /// The whole part, kept within the range of `i32`.
    fn to_i32(self) -> (r: i32)
        ensures
            r == self.s_to_i32(),
    ;

    /// What is left when whole periods are taken away until less than one is left.
    fn wrap(self, period: Self) -> (r: Self)
        requires
            !period.s_at_most(Self::s_whole(0)),
        ensures
            r == self.s_wrap(period),
    ;

    /// The number that a decimal text spells.
    fn parse(s: &str) -> (r: Option<Self>)
        ensures
            r == Self::s_parse(s@),
    ;
}

/// Whole pixels. Arithmetic wraps around at the ends of its 64 bits, fractions are cut off, and
/// dividing by zero yields zero.
#[derive(Clone, Copy, PartialEq, Eq, Debug, Structural)]
pub struct Whole(pub i64);

/// The quotient, cut off towards zero; zero where there is none.
pub open spec fn whole_quotient(a: i64, b: i64) -> i64 {
    match a.checked_div(b) {
        Some(q) => q,
        None => 0,
    }
}

impl Scalar for Whole {
    open spec fn s_whole(n: u64) -> Whole {
        Whole(n as i64)
    }

    open spec fn s_ratio(n: u32, d: u32) -> Whole {
        Whole((n / d) as i64)
    }

    open spec fn s_plus(self, other: Whole) -> Whole {
        Whole(self.0.wrapping_add(other.0))
    }

    open spec fn s_minus(self, other: Whole) -> Whole {
        Whole(self.0.wrapping_sub(other.0))
    }

    open spec fn s_times(self, other: Whole) -> Whole {
        Whole(self.0.wrapping_mul(other.0))
    }

    open spec fn s_over(self, other: Whole) -> Whole {
        Whole(whole_quotient(self.0, other.0))
    }

    open spec fn s_less(self, other: Whole) -> bool {
        self.0 < other.0
    }

    open spec fn s_at_most(self, other: Whole) -> bool {
        self.0 <= other.0
    }

    open spec fn s_larger(self, other: Whole) -> Whole {
        if self.0 < other.0 {
            other
        } else {
            self
        }
    }

    open spec fn s_to_u32(self) -> u32 {
        if self.0 < 0 {
            0
        } else if self.0 > 0xffff_ffff {
            0xffff_ffff
        } else {
            self.0 as u32
        }
    }

    open spec fn s_to_i32(self) -> i32 {
        if self.0 < i32::MIN {
            i32::MIN
        } else if self.0 > i32::MAX {
            i32::MAX
        } else {
            self.0 as i32
        }
    }

    open spec fn s_wrap(self, period: Whole) -> Whole {
        if self.0 < period.0 {
            self
        } else {
            Whole(self.0 % period.0)
        }
    }

    open spec fn s_parse(s: Seq<char>) -> Option<Whole> {
        match i32_value(s) {
            Some(n) => Some(Whole(n as i64)),
            None => None,
        }
    }

    fn whole(n: u64) -> (r: Whole) {
        Whole(n as i64)
    }

    fn ratio(n: u32, d: u32) -> (r: Whole) {
        Whole((n / d) as i64)
    }

    fn plus(self, other: Whole) -> (r: Whole) {
        Whole(self.0.wrapping_add(other.0))
    }

    fn minus(self, other: Whole) -> (r: Whole) {
        Whole(self.0.wrapping_sub(other.0))
    }

    fn times(self, other: Whole) -> (r: Whole) {
        Whole(self.0.wrapping_mul(other.0))
    }

    fn over(self, other: Whole) -> (r: Whole) {
        match self.0.checked_div(other.0) {
            Some(q) => Whole(q),
            None => Whole(0),
        }
    }

    fn less(self, other: Whole) -> (r: bool) {
        self.0 < other.0
    }

    fn at_most(self, other: Whole) -> (r: bool) {
        self.0 <= other.0
    }

    fn larger(self, other: Whole) -> (r: Whole) {
        if self.0 < other.0 {
            other
        } else {
            self
        }
    }

    fn to_u32(self) -> (r: u32) {
        if self.0 < 0 {
            0
        } else if self.0 > 0xffff_ffff {
            0xffff_ffff
        } else {
            self.0 as u32
        }
    }

    fn to_i32(self) -> (r: i32) {
        if self.0 < i32::MIN as i64 {
            i32::MIN
        } else if self.0 > i32::MAX as i64 {
            i32::MAX
        } else {
            self.0 as i32
        }
    }

    fn wrap(self, period: Whole) -> (r: Whole) {
        if self.0 < period.0 {
            self
        } else {
            Whole(self.0 % period.0)
        }
    }

    fn parse(s: &str) -> (r: Option<Whole>) {
        let chars = to_chars(s);
        match parse_i32(chars.as_slice()) {
            Some(n) => Some(Whole(n as i64)),
            None => None,
        }
    }
}

/// Whole pixels compute as numbers do, as long as the result fits; a quotient and a fraction are cut
/// off towards zero, and nothing over zero is zero.
pub proof fn law_whole_pixels_are_numbers(a: Whole, b: Whole)
    ensures
        i64::MIN <= a.0 + b.0 <= i64::MAX ==> a.s_plus(b).0 == a.0 + b.0,
        i64::MIN <= a.0 - b.0 <= i64::MAX ==> a.s_minus(b).0 == a.0 - b.0,
        i64::MIN <= a.0 * b.0 <= i64::MAX ==> a.s_times(b).0 == a.0 * b.0,
        a.0 >= 0 && b.0 > 0 ==> a.s_over(b).0 == a.0 / b.0,
        a.0 < 0 && a.0 > i64::MIN && b.0 > 0 ==> a.s_over(b).0 == -((-a.0) / (b.0 as int)),
        b.0 == 0 ==> a.s_over(b).0 == 0,
        a.s_less(b) <==> a.0 < b.0,
        a.s_at_most(b) <==> a.0 <= b.0,
        a.s_larger(b).0 >= a.0 && a.s_larger(b).0 >= b.0,
        a.s_larger(b) == a || a.s_larger(b) == b,
        b.0 > 0 && a.0 < b.0 ==> a.s_wrap(b) == a,
        b.0 > 0 && a.0 >= b.0 ==> a.s_wrap(b).0 == a.0 % b.0,
{
}

/// What is taken out of whole pixels is kept within its range, and whole numbers and fractions are
/// what they say.
pub proof fn law_whole_pixels_are_kept_in_range(a: Whole, n: u64, p: u32, q: u32)
    requires
        n <= i64::MAX,
        q > 0,
    ensures
        0 <= a.0 <= 0xffff_ffff ==> a.s_to_u32() == a.0,
        a.0 < 0 ==> a.s_to_u32() == 0,
        a.0 > 0xffff_ffff ==> a.s_to_u32() == 0xffff_ffff,
        -0x8000_0000 <= a.0 <= 0x7fff_ffff ==> a.s_to_i32() == a.0,
        a.0 < -0x8000_0000 ==> a.s_to_i32() == -0x8000_0000,
        a.0 > 0x7fff_ffff ==> a.s_to_i32() == 0x7fff_ffff,
        Whole::s_whole(n).0 == n,
        Whole::s_ratio(p, q).0 == p / q,
{
}

/// A text spells whole pixels where it spells a signed number of 32 bits.
pub proof fn law_whole_pixels_are_spelled_as_numbers(s: Seq<char>)
    ensures
        Whole::s_parse(s) is Some <==> i32_value(s) is Some,
        Whole::s_parse(s) matches Some(v) ==> v.0 == i32_value(s)->0,
{
}

} // verus!
