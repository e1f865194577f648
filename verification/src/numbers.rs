//! The capability set that integer-like values must offer: additive and
//! multiplicative identities, ordering, arithmetic, and the truncating
//! remainder whose sign follows the dividend.

use vstd::arithmetic::div_mod::lemma_div_is_ordered;
use vstd::arithmetic::div_mod::lemma_div_nonincreasing;
use vstd::arithmetic::div_mod::lemma_div_pos_is_pos;
use vstd::arithmetic::div_mod::lemma_fundamental_div_mod;
use vstd::arithmetic::div_mod::lemma_mod_division_less_than_divisor;
use vstd::prelude::*;

verus! {

/// Truncating division, the rounding-toward-zero quotient that the native
/// `/` operator of fixed-width integers computes. Written over the
/// Euclidean `/` of ghost arithmetic.
pub open spec fn trunc_div(a: int, b: int) -> int {
    if a >= 0 {
        a / b
    } else {
        -((-a) / b)
    }
}

/// Truncating remainder: the magnitude is that of the Euclidean remainder
/// of the magnitudes, and the sign follows the dividend, matching the
/// native `%` operator of fixed-width integers.
pub open spec fn trunc_rem(a: int, b: int) -> int {
    if a >= 0 {
        a % b
    } else {
        -((-a) % b)
    }
}

/// Bounds on the Euclidean quotient of a nonnegative dividend by a nonzero
/// divisor of either sign.
pub proof fn lemma_euclid_div_bounds(x: int, d: int)
    requires
        0 <= x,
        d != 0,
    ensures
        d >= 1 ==> 0 <= x / d <= x,
        d <= -1 ==> -x <= x / d <= 0,
        d == -1 ==> x / d == -x,
        d <= -2 ==> -(x / 2) <= x / d,
{
    if d >= 1 {
        lemma_div_pos_is_pos(x, d);
        lemma_div_nonincreasing(x, d);
    } else {
        let q = x / d;
        let r = x % d;
        lemma_fundamental_div_mod(x, d);
        lemma_euclid_mod_bounds(x, d);
        assert(-x <= q <= 0) by (nonlinear_arith)
            requires
                x == d * q + r,
                0 <= r < -d,
                d <= -1,
                0 <= x,
        ;
        if d == -1 {
            assert(q == -x) by (nonlinear_arith)
                requires
                    x == d * q + r,
                    0 <= r < -d,
                    d == -1,
            ;
        }
        if d <= -2 {
            let h = x / 2;
            lemma_fundamental_div_mod(x, 2);
            lemma_mod_division_less_than_divisor(x, 2);
            assert(-h <= q) by (nonlinear_arith)
                requires
                    x == d * q + r,
                    0 <= r < -d,
                    d <= -2,
                    0 <= x,
                    x == 2 * h + x % 2,
                    0 <= x % 2 < 2,
                    -x <= q <= 0,
            ;
        }
    }
}

/// Bounds on the Euclidean remainder by a nonzero divisor of either sign:
/// the remainder is never negative and its magnitude stays under the
/// divisor's.
pub proof fn lemma_euclid_mod_bounds(x: int, d: int)
    requires
        d != 0,
    ensures
        d >= 1 ==> 0 <= x % d < d,
        d <= -1 ==> 0 <= x % d < -d,
{
    if d >= 1 {
        lemma_mod_division_less_than_divisor(x, d);
    } else {
        assert(0 <= x % d < -d) by (nonlinear_arith)
            requires
                d <= -1,
        ;
    }
}

/// For a signed type whose values span `[lo, hi]` with `lo == -hi - 1`, the
/// truncating quotient and remainder of representable operands stay
/// representable, once the lone overflowing pair (the smallest value divided
/// by minus one) is excluded.
pub proof fn lemma_trunc_div_rem_fit(a: int, b: int, lo: int, hi: int)
    requires
        b != 0,
        lo <= a <= hi,
        lo <= b <= hi,
        lo == -hi - 1,
        1 <= hi,
        !(a == lo && b == -1),
    ensures
        lo <= trunc_div(a, b) <= hi,
        lo <= trunc_rem(a, b) <= hi,
{
    if a >= 0 {
        lemma_euclid_div_bounds(a, b);
        lemma_euclid_mod_bounds(a, b);
    } else {
        let x = -a;
        lemma_euclid_div_bounds(x, b);
        lemma_euclid_mod_bounds(x, b);
        if b <= -2 {
            lemma_div_is_ordered(x, hi + 1, 2);
            lemma_fundamental_div_mod(hi + 1, 2);
            lemma_mod_division_less_than_divisor(hi + 1, 2);
            assert((hi + 1) / 2 <= hi);
        }
    }
}

/// What any integer-like value type must offer: a mathematical view `v`,
/// the bounds of the type, identities, ordering, and arithmetic whose
/// division and remainder truncate toward zero.
pub trait Integers: Sized + Copy {
    /// The mathematical integer this value stands for.
    spec fn v(self) -> int;

    /// The smallest mathematical integer a value of this type can hold.
    spec fn min_val() -> int;

    /// The largest mathematical integer a value of this type can hold.
    spec fn max_val() -> int;

    /// Every value lies within the bounds of its type, zero is
    /// representable, and so is one.
    proof fn lemma_in_range(self)
        ensures
            Self::min_val() <= self.v() <= Self::max_val(),
            Self::min_val() <= 0,
            1 <= Self::max_val(),
    ;

    /// The additive identity.
    fn zero() -> (r: Self)
        ensures
            r.v() == 0,
    ;

    /// The multiplicative identity.
    fn one() -> (r: Self)
        ensures
            r.v() == 1,
    ;

    /// Strict ordering.
    fn lt(self, rhs: Self) -> (r: bool)
        ensures
            r == (self.v() < rhs.v()),
    ;

    /// Non-strict ordering.
    fn le(self, rhs: Self) -> (r: bool)
        ensures
            r == (self.v() <= rhs.v()),
    ;

    /// Addition, defined where the sum fits in the type.
    fn plus(self, rhs: Self) -> (r: Self)
        requires
            Self::min_val() <= self.v() + rhs.v() <= Self::max_val(),
        ensures
            r.v() == self.v() + rhs.v(),
    ;

    /// Subtraction, defined where the difference fits in the type.
    fn minus(self, rhs: Self) -> (r: Self)
        requires
            Self::min_val() <= self.v() - rhs.v() <= Self::max_val(),
        ensures
            r.v() == self.v() - rhs.v(),
    ;

    /// Multiplication, defined where the product fits in the type.
    fn times(self, rhs: Self) -> (r: Self)
        requires
            Self::min_val() <= self.v() * rhs.v() <= Self::max_val(),
        ensures
            r.v() == self.v() * rhs.v(),
    ;

    /// Truncating division, defined for a nonzero divisor; the one further
    /// exclusion is the division of the smallest value by minus one, whose
    /// quotient does not fit in the type.
    fn quot(self, rhs: Self) -> (r: Self)
        requires
            rhs.v() != 0,
            !(self.v() == Self::min_val() && rhs.v() == -1),
        ensures
            r.v() == trunc_div(self.v(), rhs.v()),
    ;

    /// Truncating remainder, under the same conditions as `quot`.
    fn rem(self, rhs: Self) -> (r: Self)
        requires
            rhs.v() != 0,
            !(self.v() == Self::min_val() && rhs.v() == -1),
        ensures
            r.v() == trunc_rem(self.v(), rhs.v()),
    ;
}

impl Integers for u64 {
    open spec fn v(self) -> int {
        self as int
    }

    open spec fn min_val() -> int {
        0
    }

    open spec fn max_val() -> int {
        u64::MAX as int
    }

    proof fn lemma_in_range(self) {
    }

    fn zero() -> u64 {
        0
    }

    fn one() -> u64 {
        1
    }

    fn lt(self, rhs: u64) -> bool {
        self < rhs
    }

    fn le(self, rhs: u64) -> bool {
        self <= rhs
    }

    fn plus(self, rhs: u64) -> u64 {
        self + rhs
    }

    fn minus(self, rhs: u64) -> u64 {
        self - rhs
    }

    fn times(self, rhs: u64) -> u64 {
        self * rhs
    }

    fn quot(self, rhs: u64) -> u64 {
        self / rhs
    }

    fn rem(self, rhs: u64) -> u64 {
        self % rhs
    }
}

impl Integers for usize {
    open spec fn v(self) -> int {
        self as int
    }

    open spec fn min_val() -> int {
        0
    }

    open spec fn max_val() -> int {
        usize::MAX as int
    }

    proof fn lemma_in_range(self) {
    }

    fn zero() -> usize {
        0
    }

    fn one() -> usize {
        1
    }

    fn lt(self, rhs: usize) -> bool {
        self < rhs
    }

    fn le(self, rhs: usize) -> bool {
        self <= rhs
    }

    fn plus(self, rhs: usize) -> usize {
        self + rhs
    }

    fn minus(self, rhs: usize) -> usize {
        self - rhs
    }

    fn times(self, rhs: usize) -> usize {
        self * rhs
    }

    fn quot(self, rhs: usize) -> usize {
        self / rhs
    }

    fn rem(self, rhs: usize) -> usize {
        self % rhs
    }
}

impl Integers for isize {
    open spec fn v(self) -> int {
        self as int
    }

    open spec fn min_val() -> int {
        isize::MIN as int
    }

    open spec fn max_val() -> int {
        isize::MAX as int
    }

    proof fn lemma_in_range(self) {
    }

    fn zero() -> isize {
        0
    }

    fn one() -> isize {
        1
    }

    fn lt(self, rhs: isize) -> bool {
        self < rhs
    }

    fn le(self, rhs: isize) -> bool {
        self <= rhs
    }

    fn plus(self, rhs: isize) -> isize {
        self + rhs
    }

    fn minus(self, rhs: isize) -> isize {
        self - rhs
    }

    fn times(self, rhs: isize) -> isize {
        self * rhs
    }

    fn quot(self, rhs: isize) -> isize {
        proof {
            lemma_trunc_div_rem_fit(
                self as int,
                rhs as int,
                isize::MIN as int,
                isize::MAX as int,
            );
        }
        self / rhs
    }

    fn rem(self, rhs: isize) -> isize {
        proof {
            lemma_trunc_div_rem_fit(
                self as int,
                rhs as int,
                isize::MIN as int,
                isize::MAX as int,
            );
        }
        self % rhs
    }
}

impl Integers for u32 {
    open spec fn v(self) -> int {
        self as int
    }

    open spec fn min_val() -> int {
        0
    }

    open spec fn max_val() -> int {
        u32::MAX as int
    }

    proof fn lemma_in_range(self) {
    }

    fn zero() -> u32 {
        0
    }

    fn one() -> u32 {
        1
    }

    fn lt(self, rhs: u32) -> bool {
        self < rhs
    }

    fn le(self, rhs: u32) -> bool {
        self <= rhs
    }

    fn plus(self, rhs: u32) -> u32 {
        self + rhs
    }

    fn minus(self, rhs: u32) -> u32 {
        self - rhs
    }

    fn times(self, rhs: u32) -> u32 {
        self * rhs
    }

    fn quot(self, rhs: u32) -> u32 {
        self / rhs
    }

    fn rem(self, rhs: u32) -> u32 {
        self % rhs
    }
}

impl Integers for i32 {
    open spec fn v(self) -> int {
        self as int
    }

    open spec fn min_val() -> int {
        i32::MIN as int
    }

    open spec fn max_val() -> int {
        i32::MAX as int
    }

    proof fn lemma_in_range(self) {
    }

    fn zero() -> i32 {
        0
    }

    fn one() -> i32 {
        1
    }

    fn lt(self, rhs: i32) -> bool {
        self < rhs
    }

    fn le(self, rhs: i32) -> bool {
        self <= rhs
    }

    fn plus(self, rhs: i32) -> i32 {
        self + rhs
    }

    fn minus(self, rhs: i32) -> i32 {
        self - rhs
    }

    fn times(self, rhs: i32) -> i32 {
        self * rhs
    }

    fn quot(self, rhs: i32) -> i32 {
        proof {
            lemma_trunc_div_rem_fit(
                self as int,
                rhs as int,
                i32::MIN as int,
                i32::MAX as int,
            );
        }
        self / rhs
    }

    fn rem(self, rhs: i32) -> i32 {
        proof {
            lemma_trunc_div_rem_fit(
                self as int,
                rhs as int,
                i32::MIN as int,
                i32::MAX as int,
            );
        }
        self % rhs
    }
}

impl Integers for i64 {
    open spec fn v(self) -> int {
        self as int
    }

    open spec fn min_val() -> int {
        i64::MIN as int
    }

    open spec fn max_val() -> int {
        i64::MAX as int
    }

    proof fn lemma_in_range(self) {
    }

    fn zero() -> i64 {
        0
    }

    fn one() -> i64 {
        1
    }

    fn lt(self, rhs: i64) -> bool {
        self < rhs
    }

    fn le(self, rhs: i64) -> bool {
        self <= rhs
    }

    fn plus(self, rhs: i64) -> i64 {
        self + rhs
    }

    fn minus(self, rhs: i64) -> i64 {
        self - rhs
    }

    fn times(self, rhs: i64) -> i64 {
        self * rhs
    }

    fn quot(self, rhs: i64) -> i64 {
        proof {
            lemma_trunc_div_rem_fit(
                self as int,
                rhs as int,
                i64::MIN as int,
                i64::MAX as int,
            );
        }
        self / rhs
    }

    fn rem(self, rhs: i64) -> i64 {
        proof {
            lemma_trunc_div_rem_fit(
                self as int,
                rhs as int,
                i64::MIN as int,
                i64::MAX as int,
            );
        }
        self % rhs
    }
}

} // verus!
