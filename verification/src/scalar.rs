use vstd::prelude::*;

verus! {

/// The absolute value of an integer.
pub open spec fn abs_int(a: int) -> int {
    if a < 0 { -a } else { a }
}

/// Division that rounds toward zero, as Rust's `/` does on integers.
pub open spec fn trunc_div(a: int, b: int) -> int {
    if (a >= 0 && b > 0) || (a <= 0 && b < 0) {
        abs_int(a) / abs_int(b)
    } else {
        -(abs_int(a) / abs_int(b))
    }
}

/// Division that rounds toward zero leaves a remainder smaller than the divisor
/// that has the sign of the dividend (or is zero): `a == q * b + r` with
/// `|r| < |b|`.
pub proof fn law_trunc_div(a: int, b: int)
    requires
        b != 0,
    ensures
        abs_int(a - trunc_div(a, b) * b) < abs_int(b),
        a - trunc_div(a, b) * b == 0 || (a - trunc_div(a, b) * b > 0) == (a > 0),
        trunc_div(a, 1) == a,
        trunc_div(a * b, b) == a,
{
    let x = abs_int(a);
    let y = abs_int(b);
    let q = x / y;
    vstd::arithmetic::div_mod::lemma_fundamental_div_mod(x, y);
    vstd::arithmetic::div_mod::lemma_mod_pos_bound(x, y);
    let m = x % y;
    assert(x == y * q + m);
    if (a >= 0 && b > 0) || (a <= 0 && b < 0) {
        assert(trunc_div(a, b) == q);
        if b > 0 {
            assert(a - q * b == m) by (nonlinear_arith)
                requires
                    x == a,
                    y == b,
                    x == y * q + m,
            ;
        } else {
            assert(a - q * b == -m) by (nonlinear_arith)
                requires
                    x == -a,
                    y == -b,
                    x == y * q + m,
            ;
        }
    } else {
        assert(trunc_div(a, b) == -q);
        if b < 0 {
            assert(a - (-q) * b == m) by (nonlinear_arith)
                requires
                    x == a,
                    y == -b,
                    x == y * q + m,
            ;
        } else {
            assert(a - (-q) * b == -m) by (nonlinear_arith)
                requires
                    x == -a,
                    y == b,
                    x == y * q + m,
            ;
        }
    }
    vstd::arithmetic::div_mod::lemma_div_by_self(1);
    assert(abs_int(a) / 1 == abs_int(a));
    // `a * b` divided by `b`: the magnitudes divide exactly.
    let p = a * b;
    assert(abs_int(p) == x * y) by (nonlinear_arith)
        requires
            x == abs_int(a),
            y == abs_int(b),
            p == a * b,
    ;
    vstd::arithmetic::div_mod::lemma_div_multiples_vanish(x, y);
    assert((y * x) / y == x);
    assert(x * y == y * x) by (nonlinear_arith);
    assert(p >= 0 && b > 0 ==> a >= 0) by (nonlinear_arith)
        requires
            p == a * b,
    ;
    assert(p <= 0 && b > 0 ==> a <= 0) by (nonlinear_arith)
        requires
            p == a * b,
    ;
    assert(p >= 0 && b < 0 ==> a <= 0) by (nonlinear_arith)
        requires
            p == a * b,
    ;
    assert(p <= 0 && b < 0 ==> a >= 0) by (nonlinear_arith)
        requires
            p == a * b,
    ;
}

/// Rust's `/` on a non-negative dividend and a negative divisor: the quotient of the
/// magnitudes, negated, equals the floor quotient `a / b` that specifications use.
pub proof fn lemma_div_negative_divisor(a: int, b: int)
    requires
        a >= 0,
        b < 0,
    ensures
        a / b == -(a / (-b)),
{
    let q = a / (-b);
    let r = a % (-b);
    vstd::arithmetic::div_mod::lemma_fundamental_div_mod(a, -b);
    assert(0 <= r < -b) by {
        vstd::arithmetic::div_mod::lemma_mod_pos_bound(a, -b);
    }
    assert(a == b * (-q) + r) by (nonlinear_arith)
        requires
            a == (-b) * q + r,
    ;
    vstd::arithmetic::div_mod::lemma_fundamental_div_mod(a, b);
    let q2 = a / b;
    let r2 = a % b;
    assert(0 <= r2 < -b);
    assert(q2 == -q) by (nonlinear_arith)
        requires
            a == b * q2 + r2,
            a == b * (-q) + r,
            0 <= r < -b,
            0 <= r2 < -b,
            b < 0,
    ;
}

/// A machine integer that can stand as a vector component.
/// `val` is its mathematical value and `fits` tells which values the type can hold;
/// each operation requires that its exact result fits, so it never wraps.
pub trait Scalar: Copy + Sized {
    spec fn val(self) -> int;

    spec fn fits(v: int) -> bool;

    /// Every value of the type fits the type.
    proof fn lemma_fits(x: Self)
        ensures
            Self::fits(x.val()),
    ;

    /// A value between two values that fit fits too.
    proof fn lemma_fits_interval(a: int, b: int, c: int)
        requires
            Self::fits(a),
            Self::fits(c),
            a <= b <= c,
        ensures
            Self::fits(b),
    ;

    /// Zero fits every type.
    proof fn lemma_zero_fits()
        ensures
            Self::fits(0),
    ;

    fn zero() -> (r: Self)
        ensures
            r.val() == 0,
    ;

    fn plus(self, rhs: Self) -> (r: Self)
        requires
            Self::fits(self.val() + rhs.val()),
        ensures
            r.val() == self.val() + rhs.val(),
    ;

    fn minus(self, rhs: Self) -> (r: Self)
        requires
            Self::fits(self.val() - rhs.val()),
        ensures
            r.val() == self.val() - rhs.val(),
    ;

    fn times(self, rhs: Self) -> (r: Self)
        requires
            Self::fits(self.val() * rhs.val()),
        ensures
            r.val() == self.val() * rhs.val(),
    ;

    fn divide(self, rhs: Self) -> (r: Self)
        requires
            rhs.val() != 0,
            Self::fits(trunc_div(self.val(), rhs.val())),
        ensures
            r.val() == trunc_div(self.val(), rhs.val()),
    ;

    fn negate(self) -> (r: Self)
        requires
            Self::fits(-self.val()),
        ensures
            r.val() == -self.val(),
    ;

    fn is_negative(self) -> (r: bool)
        ensures
            r == (self.val() < 0),
    ;
}

impl Scalar for u8 {
    open spec fn val(self) -> int {
        self as int
    }

    open spec fn fits(v: int) -> bool {
        0 <= v <= u8::MAX
    }

    proof fn lemma_fits(x: Self) {
    }

    proof fn lemma_fits_interval(a: int, b: int, c: int) {
    }

    proof fn lemma_zero_fits() {
    }

    fn zero() -> (r: Self) {
        0
    }

    fn plus(self, rhs: Self) -> (r: Self) {
        self + rhs
    }

    fn minus(self, rhs: Self) -> (r: Self) {
        self - rhs
    }

    fn times(self, rhs: Self) -> (r: Self) {
        self * rhs
    }

    fn divide(self, rhs: Self) -> (r: Self) {
        self / rhs
    }

    fn negate(self) -> (r: Self) {
        0
    }

    fn is_negative(self) -> (r: bool) {
        false
    }
}

impl Scalar for i32 {
    open spec fn val(self) -> int {
        self as int
    }

    open spec fn fits(v: int) -> bool {
        i32::MIN <= v <= i32::MAX
    }

    proof fn lemma_fits(x: Self) {
    }

    proof fn lemma_fits_interval(a: int, b: int, c: int) {
    }

    proof fn lemma_zero_fits() {
    }

    fn zero() -> (r: Self) {
        0
    }

    fn plus(self, rhs: Self) -> (r: Self) {
        self + rhs
    }

    fn minus(self, rhs: Self) -> (r: Self) {
        self - rhs
    }

    fn times(self, rhs: Self) -> (r: Self) {
        self * rhs
    }

    fn divide(self, rhs: Self) -> (r: Self) {
        proof {
            if self == i32::MIN && rhs == -1 {
                assert(abs_int(self as int) == 2147483648int);
                assert(abs_int(rhs as int) == 1);
                vstd::arithmetic::div_mod::lemma_div_basics(2147483648int);
                assert(trunc_div(self as int, rhs as int) == 2147483648int);
            }
            if self >= 0 && rhs < 0 {
                lemma_div_negative_divisor(self as int, rhs as int);
            }
            if self < 0 && rhs < 0 {
                lemma_div_negative_divisor(-self, rhs as int);
            }
        }
        self / rhs
    }

    fn negate(self) -> (r: Self) {
        -self
    }

    fn is_negative(self) -> (r: bool) {
        self < 0
    }
}

impl Scalar for u32 {
    open spec fn val(self) -> int {
        self as int
    }

    open spec fn fits(v: int) -> bool {
        0 <= v <= u32::MAX
    }

    proof fn lemma_fits(x: Self) {
    }

    proof fn lemma_fits_interval(a: int, b: int, c: int) {
    }

    proof fn lemma_zero_fits() {
    }

    fn zero() -> (r: Self) {
        0
    }

    fn plus(self, rhs: Self) -> (r: Self) {
        self + rhs
    }

    fn minus(self, rhs: Self) -> (r: Self) {
        self - rhs
    }

    fn times(self, rhs: Self) -> (r: Self) {
        self * rhs
    }

    fn divide(self, rhs: Self) -> (r: Self) {
        self / rhs
    }

    fn negate(self) -> (r: Self) {
        0
    }

    fn is_negative(self) -> (r: bool) {
        false
    }
}

impl Scalar for u64 {
    open spec fn val(self) -> int {
        self as int
    }

    open spec fn fits(v: int) -> bool {
        0 <= v <= u64::MAX
    }

    proof fn lemma_fits(x: Self) {
    }

    proof fn lemma_fits_interval(a: int, b: int, c: int) {
    }

    proof fn lemma_zero_fits() {
    }

    fn zero() -> (r: Self) {
        0
    }

    fn plus(self, rhs: Self) -> (r: Self) {
        self + rhs
    }

    fn minus(self, rhs: Self) -> (r: Self) {
        self - rhs
    }

    fn times(self, rhs: Self) -> (r: Self) {
        self * rhs
    }

    fn divide(self, rhs: Self) -> (r: Self) {
        self / rhs
    }

    fn negate(self) -> (r: Self) {
        0
    }

    fn is_negative(self) -> (r: bool) {
        false
    }
}

impl Scalar for i64 {
    open spec fn val(self) -> int {
        self as int
    }

    open spec fn fits(v: int) -> bool {
        i64::MIN <= v <= i64::MAX
    }

    proof fn lemma_fits(x: Self) {
    }

    proof fn lemma_fits_interval(a: int, b: int, c: int) {
    }

    proof fn lemma_zero_fits() {
    }

    fn zero() -> (r: Self) {
        0
    }

    fn plus(self, rhs: Self) -> (r: Self) {
        self + rhs
    }

    fn minus(self, rhs: Self) -> (r: Self) {
        self - rhs
    }

    fn times(self, rhs: Self) -> (r: Self) {
        self * rhs
    }

    fn divide(self, rhs: Self) -> (r: Self) {
        proof {
            if self == i64::MIN && rhs == -1 {
                assert(abs_int(self as int) == 9223372036854775808int);
                assert(abs_int(rhs as int) == 1);
                vstd::arithmetic::div_mod::lemma_div_basics(9223372036854775808int);
                assert(trunc_div(self as int, rhs as int) == 9223372036854775808int);
            }
            if self >= 0 && rhs < 0 {
                lemma_div_negative_divisor(self as int, rhs as int);
            }
            if self < 0 && rhs < 0 {
                lemma_div_negative_divisor(-self, rhs as int);
            }
        }
        self / rhs
    }

    fn negate(self) -> (r: Self) {
        -self
    }

    fn is_negative(self) -> (r: bool) {
        self < 0
    }
}

} // verus!
