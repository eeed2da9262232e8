use vstd::prelude::*;

use crate::vec3::Vec3;

verus! {

/// One of the three coordinate planes.
#[derive(Clone, Copy, PartialEq, Eq, Debug)]
pub enum CoordinatePlane {
    XY,
    XZ,
    YZ,
}

impl CoordinatePlane {
    /// The unit normal of the plane: `+z` for XY, `+y` for XZ, `+x` for YZ.
    pub fn normal(&self) -> (r: Vec3<i32>)
        ensures
            *self == CoordinatePlane::XY ==> r@ == (0int, 0int, 1int),
            *self == CoordinatePlane::XZ ==> r@ == (0int, 1int, 0int),
            *self == CoordinatePlane::YZ ==> r@ == (1int, 0int, 0int),
    {
        match self {
            CoordinatePlane::XY => Vec3::new(0, 0, 1),
            CoordinatePlane::XZ => Vec3::new(0, 1, 0),
            CoordinatePlane::YZ => Vec3::new(1, 0, 0),
        }
    }
}

/// A material that shows the surface normal as a color.
#[derive(Clone, Copy, PartialEq, Eq, Debug, Default)]
pub struct MatNormalDebug {}

/// A material that shows whether a ray hit the front or the back of a face.
#[derive(Clone, Copy, PartialEq, Eq, Debug, Default)]
pub struct MatFaceDebug {}

/// A material that shows how often a ray has bounced, up to `limit` bounces.
#[derive(Clone, Copy, PartialEq, Eq, Debug)]
pub struct MatBounceDebug {
    pub limit: u32,
}

/// How a surface with `MatBounceDebug` is shaded after some number of bounces.
#[derive(Clone, Copy, PartialEq, Eq, Debug)]
pub enum BounceShade {
    /// The bounce limit is reached: the surface is red.
    LimitReached,
    /// The surface is grey, `bounces / steps` of the way from black to white.
    Graded { bounces: u32, steps: u32 },
}

impl MatBounceDebug {
    pub fn new(limit: u32) -> (r: Self)
        ensures
            r.limit == limit,
    {
        MatBounceDebug { limit: limit }
    }

    /// The shade after `num_bounces` bounces: red from `limit` bounces on, else a grey
    /// step `num_bounces / (limit - 1)`.
    pub fn bounce_shade(&self, num_bounces: u32) -> (r: BounceShade)
        ensures
            num_bounces >= self.limit <==> r == BounceShade::LimitReached,
            num_bounces < self.limit ==> r == (BounceShade::Graded {
                bounces: num_bounces,
                steps: (self.limit - 1) as u32,
            }),
    {
        if num_bounces >= self.limit {
            BounceShade::LimitReached
        } else {
            BounceShade::Graded { bounces: num_bounces, steps: self.limit - 1 }
        }
    }

    /// The instance used where a random material is asked for: a fixed limit of 32.
    pub fn random_instance() -> (r: Self)
        ensures
            r.limit == 32,
    {
        MatBounceDebug { limit: 32 }
    }
}

/// Settings for post-processing a rendered image.
#[derive(Clone, Copy, PartialEq, Eq, Debug, Default)]
pub struct PostProcessSettings {}

} // verus!
