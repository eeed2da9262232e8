use vstd::prelude::*;

use crate::scalar::{abs_int, trunc_div, Scalar};

verus! {

/// The mathematical value of a three-component vector.
pub type IVec3 = (int, int, int);

pub open spec fn v_add(a: IVec3, b: IVec3) -> IVec3 {
    (a.0 + b.0, a.1 + b.1, a.2 + b.2)
}

pub open spec fn v_add_scalar(a: IVec3, t: int) -> IVec3 {
    (a.0 + t, a.1 + t, a.2 + t)
}

pub open spec fn v_sub(a: IVec3, b: IVec3) -> IVec3 {
    (a.0 - b.0, a.1 - b.1, a.2 - b.2)
}

pub open spec fn v_sub_scalar(a: IVec3, t: int) -> IVec3 {
    (a.0 - t, a.1 - t, a.2 - t)
}

pub open spec fn v_mul(a: IVec3, b: IVec3) -> IVec3 {
    (a.0 * b.0, a.1 * b.1, a.2 * b.2)
}

pub open spec fn v_scale(a: IVec3, t: int) -> IVec3 {
    (a.0 * t, a.1 * t, a.2 * t)
}

pub open spec fn v_div(a: IVec3, b: IVec3) -> IVec3 {
    (trunc_div(a.0, b.0), trunc_div(a.1, b.1), trunc_div(a.2, b.2))
}

pub open spec fn v_div_scalar(a: IVec3, t: int) -> IVec3 {
    (trunc_div(a.0, t), trunc_div(a.1, t), trunc_div(a.2, t))
}

pub open spec fn v_neg(a: IVec3) -> IVec3 {
    (-a.0, -a.1, -a.2)
}

pub open spec fn v_abs(a: IVec3) -> IVec3 {
    (abs_int(a.0), abs_int(a.1), abs_int(a.2))
}

pub open spec fn v_dot(a: IVec3, b: IVec3) -> int {
    a.0 * b.0 + a.1 * b.1 + a.2 * b.2
}

pub open spec fn v_cross(a: IVec3, b: IVec3) -> IVec3 {
    (a.1 * b.2 - a.2 * b.1, a.2 * b.0 - a.0 * b.2, a.0 * b.1 - a.1 * b.0)
}

pub open spec fn v_length_squared(a: IVec3) -> int {
    a.0 * a.0 + a.1 * a.1 + a.2 * a.2
}

/// Linear interpolation `a + (b - a) * t`.
pub open spec fn v_lerp(a: IVec3, b: IVec3, t: int) -> IVec3 {
    v_add(a, v_scale(v_sub(b, a), t))
}

/// All three components fit the component type `T`.
pub open spec fn fits3<T: Scalar>(a: IVec3) -> bool {
    T::fits(a.0) && T::fits(a.1) && T::fits(a.2)
}

/// Every partial sum of the dot product fits `T`, so computing it left to right never overflows.
pub open spec fn dot_fits<T: Scalar>(a: IVec3, b: IVec3) -> bool {
    &&& T::fits(a.0 * b.0)
    &&& T::fits(a.1 * b.1)
    &&& T::fits(a.2 * b.2)
    &&& T::fits(a.0 * b.0 + a.1 * b.1)
    &&& T::fits(a.0 * b.0 + a.1 * b.1 + a.2 * b.2)
}

/// Every product and difference of the cross product fits `T`.
pub open spec fn cross_fits<T: Scalar>(a: IVec3, b: IVec3) -> bool {
    &&& T::fits(a.1 * b.2)
    &&& T::fits(a.2 * b.1)
    &&& T::fits(a.2 * b.0)
    &&& T::fits(a.0 * b.2)
    &&& T::fits(a.0 * b.1)
    &&& T::fits(a.1 * b.0)
    &&& fits3::<T>(v_cross(a, b))
}

/// Every intermediate value of `a + (b - a) * t` fits `T`.
pub open spec fn lerp_fits<T: Scalar>(a: IVec3, b: IVec3, t: int) -> bool {
    &&& fits3::<T>(v_sub(b, a))
    &&& fits3::<T>(v_scale(v_sub(b, a), t))
    &&& fits3::<T>(v_lerp(a, b, t))
}

/// The cross product is anticommutative: `a × b == -(b × a)`.
pub proof fn law_cross_anticommutative(a: IVec3, b: IVec3)
    ensures
        v_cross(a, b) == v_neg(v_cross(b, a)),
{
    assert(a.1 * b.2 == b.2 * a.1) by (nonlinear_arith);
    assert(a.2 * b.1 == b.1 * a.2) by (nonlinear_arith);
    assert(a.2 * b.0 == b.0 * a.2) by (nonlinear_arith);
    assert(a.0 * b.2 == b.2 * a.0) by (nonlinear_arith);
    assert(a.0 * b.1 == b.1 * a.0) by (nonlinear_arith);
    assert(a.1 * b.0 == b.0 * a.1) by (nonlinear_arith);
}

/// The cross product is orthogonal to both of its factors.
pub proof fn law_cross_orthogonal(a: IVec3, b: IVec3)
    ensures
        v_dot(a, v_cross(a, b)) == 0,
        v_dot(b, v_cross(a, b)) == 0,
{
    let (a0, a1, a2) = a;
    let (b0, b1, b2) = b;
    assert(a0 * (a1 * b2 - a2 * b1) + a1 * (a2 * b0 - a0 * b2) + a2 * (a0 * b1 - a1 * b0) == 0)
        by (nonlinear_arith);
    assert(b0 * (a1 * b2 - a2 * b1) + b1 * (a2 * b0 - a0 * b2) + b2 * (a0 * b1 - a1 * b0) == 0)
        by (nonlinear_arith);
}

/// The dot product is commutative, and the squared length is the dot product of a
/// vector with itself, which is never negative.
pub proof fn law_dot_symmetric_and_length(a: IVec3, b: IVec3)
    ensures
        v_dot(a, b) == v_dot(b, a),
        v_length_squared(a) == v_dot(a, a),
        v_length_squared(a) >= 0,
{
    assert(a.0 * b.0 == b.0 * a.0) by (nonlinear_arith);
    assert(a.1 * b.1 == b.1 * a.1) by (nonlinear_arith);
    assert(a.2 * b.2 == b.2 * a.2) by (nonlinear_arith);
    assert(a.0 * a.0 >= 0) by (nonlinear_arith);
    assert(a.1 * a.1 >= 0) by (nonlinear_arith);
    assert(a.2 * a.2 >= 0) by (nonlinear_arith);
}

/// Interpolation reaches its end points at `t == 0` and `t == 1`.
pub proof fn law_lerp_endpoints(a: IVec3, b: IVec3)
    ensures
        v_lerp(a, b, 0) == a,
        v_lerp(a, b, 1) == b,
{
}

/// The absolute value has non-negative components, is idempotent and ignores sign.
pub proof fn law_abs(a: IVec3)
    ensures
        v_abs(a).0 >= 0 && v_abs(a).1 >= 0 && v_abs(a).2 >= 0,
        v_abs(v_abs(a)) == v_abs(a),
        v_abs(v_neg(a)) == v_abs(a),
{
}

/// Subtracting a vector undoes adding it, and negating twice gives the vector back.
pub proof fn law_add_sub_inverse(a: IVec3, b: IVec3)
    ensures
        v_sub(v_add(a, b), b) == a,
        v_add(v_sub(a, b), b) == a,
        v_neg(v_neg(a)) == a,
{
}

/// The componentwise operations act on each component alone and agree with one
/// another: the product is commutative with `(1, 1, 1)` as its identity, the sum
/// is commutative with the zero vector as its identity, a vector minus itself is
/// zero, a quotient undoes a product, and each operation with a scalar is the
/// operation with the vector whose components all equal that scalar.
pub proof fn law_componentwise(a: IVec3, b: IVec3, t: int)
    ensures
        v_mul(a, b) == v_mul(b, a),
        v_mul(a, (1, 1, 1)) == a,
        v_mul((1, 1, 1), a) == a,
        v_add(a, b) == v_add(b, a),
        v_add(a, (0, 0, 0)) == a,
        v_sub(a, a) == (0int, 0int, 0int),
        v_sub(a, (0, 0, 0)) == a,
        v_neg(a) == v_sub((0, 0, 0), a),
        v_div(a, (1, 1, 1)) == a,
        b.0 != 0 && b.1 != 0 && b.2 != 0 ==> v_div(v_mul(a, b), b) == a,
        v_scale(a, t) == v_mul(a, (t, t, t)),
        v_add_scalar(a, t) == v_add(a, (t, t, t)),
        v_sub_scalar(a, t) == v_sub(a, (t, t, t)),
        v_div_scalar(a, t) == v_div(a, (t, t, t)),
{
    assert(a.0 * b.0 == b.0 * a.0) by (nonlinear_arith);
    assert(a.1 * b.1 == b.1 * a.1) by (nonlinear_arith);
    assert(a.2 * b.2 == b.2 * a.2) by (nonlinear_arith);
    crate::scalar::law_trunc_div(a.0, 1);
    crate::scalar::law_trunc_div(a.1, 1);
    crate::scalar::law_trunc_div(a.2, 1);
    if b.0 != 0 && b.1 != 0 && b.2 != 0 {
        crate::scalar::law_trunc_div(a.0, b.0);
        crate::scalar::law_trunc_div(a.1, b.1);
        crate::scalar::law_trunc_div(a.2, b.2);
    }
}

/// A vector of three components of the integer type `T`.
#[derive(Clone, Copy, PartialEq, Eq, Debug)]
pub struct Vec3<T> {
    v: [T; 3],
}

impl<T: Scalar> View for Vec3<T> {
    type V = IVec3;

    closed spec fn view(&self) -> IVec3 {
        (self.v[0].val(), self.v[1].val(), self.v[2].val())
    }
}

impl<T: Scalar> Vec3<T> {
    /// Every component of a vector fits its type.
    pub proof fn lemma_components_fit(self)
        ensures
            fits3::<T>(self@),
    {
        T::lemma_fits(self.v[0]);
        T::lemma_fits(self.v[1]);
        T::lemma_fits(self.v[2]);
    }

    pub fn new(x: T, y: T, z: T) -> (r: Self)
        ensures
            r@ == (x.val(), y.val(), z.val()),
    {
        Self { v: [x, y, z] }
    }

    /// Dot product.
    pub fn dot(&self, rhs: &Vec3<T>) -> (r: T)
        requires
            dot_fits::<T>(self@, rhs@),
        ensures
            r.val() == v_dot(self@, rhs@),
    {
        let p0 = self.v[0].times(rhs.v[0]);
        let p1 = self.v[1].times(rhs.v[1]);
        let p2 = self.v[2].times(rhs.v[2]);
        p0.plus(p1).plus(p2)
    }

    /// Cross product.
    pub fn cross(&self, rhs: &Vec3<T>) -> (r: Vec3<T>)
        requires
            cross_fits::<T>(self@, rhs@),
        ensures
            r@ == v_cross(self@, rhs@),
    {
        let c0 = self.v[1].times(rhs.v[2]).minus(self.v[2].times(rhs.v[1]));
        let c1 = self.v[2].times(rhs.v[0]).minus(self.v[0].times(rhs.v[2]));
        let c2 = self.v[0].times(rhs.v[1]).minus(self.v[1].times(rhs.v[0]));
        Self { v: [c0, c1, c2] }
    }

    pub fn length_squared(&self) -> (r: T)
        requires
            dot_fits::<T>(self@, self@),
        ensures
            r.val() == v_length_squared(self@),
    {
        let p0 = self.v[0].times(self.v[0]);
        let p1 = self.v[1].times(self.v[1]);
        let p2 = self.v[2].times(self.v[2]);
        p0.plus(p1).plus(p2)
    }

    /// Interpolate: `self + (other - self) * t`.
    pub fn lerp(&self, other: &Vec3<T>, t: T) -> (r: Vec3<T>)
        requires
            lerp_fits::<T>(self@, other@, t.val()),
        ensures
            r@ == v_lerp(self@, other@, t.val()),
    {
        self.plus(&other.minus(self).times_scalar(t))
    }

    pub fn x(&self) -> (r: T)
        ensures
            r.val() == self@.0,
    {
        self.v[0]
    }

    pub fn y(&self) -> (r: T)
        ensures
            r.val() == self@.1,
    {
        self.v[1]
    }

    pub fn z(&self) -> (r: T)
        ensures
            r.val() == self@.2,
    {
        self.v[2]
    }

    pub fn r(&self) -> (r: T)
        ensures
            r.val() == self@.0,
    {
        self.v[0]
    }

    pub fn g(&self) -> (r: T)
        ensures
            r.val() == self@.1,
    {
        self.v[1]
    }

    pub fn b(&self) -> (r: T)
        ensures
            r.val() == self@.2,
    {
        self.v[2]
    }

    /// The component at `index` (0, 1 or 2).
    pub fn component(&self, index: usize) -> (r: T)
        requires
            index < 3,
        ensures
            index == 0 ==> r.val() == self@.0,
            index == 1 ==> r.val() == self@.1,
            index == 2 ==> r.val() == self@.2,
    {
        self.v[index]
    }

    fn quick_abs(a: T) -> (r: T)
        requires
            T::fits(abs_int(a.val())),
        ensures
            r.val() == abs_int(a.val()),
    {
        if a.is_negative() {
            a.negate()
        } else {
            a
        }
    }

    /// Componentwise absolute value.
    pub fn abs(&self) -> (r: Vec3<T>)
        requires
            fits3::<T>(v_abs(self@)),
        ensures
            r@ == v_abs(self@),
    {
        Vec3 {
            v: [Self::quick_abs(self.v[0]), Self::quick_abs(self.v[1]), Self::quick_abs(self.v[2])],
        }
    }

    /// Componentwise sum.
    pub fn plus(&self, rhs: &Vec3<T>) -> (r: Vec3<T>)
        requires
            fits3::<T>(v_add(self@, rhs@)),
        ensures
            r@ == v_add(self@, rhs@),
    {
        Vec3 { v: [self.v[0].plus(rhs.v[0]), self.v[1].plus(rhs.v[1]), self.v[2].plus(rhs.v[2])] }
    }

    /// Add `rhs` to every component in place.
    pub fn plus_assign(&mut self, rhs: &Vec3<T>)
        requires
            fits3::<T>(v_add(old(self)@, rhs@)),
        ensures
            final(self)@ == v_add(old(self)@, rhs@),
    {
        let a = self.v[0].plus(rhs.v[0]);
        let b = self.v[1].plus(rhs.v[1]);
        let c = self.v[2].plus(rhs.v[2]);
        self.v = [a, b, c];
    }

    /// Add the scalar `t` to every component.
    pub fn plus_scalar(&self, t: T) -> (r: Vec3<T>)
        requires
            fits3::<T>(v_add_scalar(self@, t.val())),
        ensures
            r@ == v_add_scalar(self@, t.val()),
    {
        Vec3 { v: [self.v[0].plus(t), self.v[1].plus(t), self.v[2].plus(t)] }
    }

    /// Componentwise difference.
    pub fn minus(&self, rhs: &Vec3<T>) -> (r: Vec3<T>)
        requires
            fits3::<T>(v_sub(self@, rhs@)),
        ensures
            r@ == v_sub(self@, rhs@),
    {
        Vec3 { v: [self.v[0].minus(rhs.v[0]), self.v[1].minus(rhs.v[1]), self.v[2].minus(rhs.v[2])] }
    }

    /// Subtract the scalar `t` from every component.
    pub fn minus_scalar(&self, t: T) -> (r: Vec3<T>)
        requires
            fits3::<T>(v_sub_scalar(self@, t.val())),
        ensures
            r@ == v_sub_scalar(self@, t.val()),
    {
        Vec3 { v: [self.v[0].minus(t), self.v[1].minus(t), self.v[2].minus(t)] }
    }

    /// Componentwise product.
    pub fn times(&self, rhs: &Vec3<T>) -> (r: Vec3<T>)
        requires
            fits3::<T>(v_mul(self@, rhs@)),
        ensures
            r@ == v_mul(self@, rhs@),
    {
        Vec3 { v: [self.v[0].times(rhs.v[0]), self.v[1].times(rhs.v[1]), self.v[2].times(rhs.v[2])] }
    }

    /// Multiply every component by the scalar `t`.
    pub fn times_scalar(&self, t: T) -> (r: Vec3<T>)
        requires
            fits3::<T>(v_scale(self@, t.val())),
        ensures
            r@ == v_scale(self@, t.val()),
    {
        Vec3 { v: [self.v[0].times(t), self.v[1].times(t), self.v[2].times(t)] }
    }

    /// Componentwise quotient, rounded toward zero.
    pub fn divide(&self, rhs: &Vec3<T>) -> (r: Vec3<T>)
        requires
            rhs@.0 != 0 && rhs@.1 != 0 && rhs@.2 != 0,
            fits3::<T>(v_div(self@, rhs@)),
        ensures
            r@ == v_div(self@, rhs@),
    {
        Vec3 {
            v: [self.v[0].divide(rhs.v[0]), self.v[1].divide(rhs.v[1]), self.v[2].divide(rhs.v[2])],
        }
    }

    /// Divide every component by the scalar `t`, rounding toward zero.
    pub fn divide_scalar(&self, t: T) -> (r: Vec3<T>)
        requires
            t.val() != 0,
            fits3::<T>(v_div_scalar(self@, t.val())),
        ensures
            r@ == v_div_scalar(self@, t.val()),
    {
        Vec3 { v: [self.v[0].divide(t), self.v[1].divide(t), self.v[2].divide(t)] }
    }

    /// Componentwise negation.
    pub fn negate(&self) -> (r: Vec3<T>)
        requires
            fits3::<T>(v_neg(self@)),
        ensures
            r@ == v_neg(self@),
    {
        Vec3 { v: [self.v[0].negate(), self.v[1].negate(), self.v[2].negate()] }
    }
}

impl<T: Scalar> Default for Vec3<T> {
    fn default() -> (r: Self)
        ensures
            r@ == (0int, 0int, 0int),
    {
        Vec3 { v: [T::zero(), T::zero(), T::zero()] }
    }
}

} // verus!
