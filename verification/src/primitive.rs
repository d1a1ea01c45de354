//! Hits, and the two traits through which geometry enters the hierarchy.
//!
//! A distance is carried as a `u32` key. Keys are compared as unsigned
//! integers, and a smaller key stands for a nearer point. The bit pattern of a
//! non-negative IEEE 754 single orders exactly as the number does, so a caller
//! that measures in that format hands over the bit pattern; `MISSED` is then
//! the pattern of positive infinity.

use vstd::prelude::*;

verus! {

/// The distance key of "nothing was hit".
pub const MISSED: u32 = 0x7f80_0000;

/// The nearest intersection found so far along a ray: how far away it is, and
/// where on the surface it lies. `P` is whatever the caller describes a
/// surface point with.
#[derive(Clone, Copy, Debug)]
pub struct Hit<P> {
    pub distance: u32,
    pub pos: P,
}

impl<P> Hit<P> {
    pub open spec fn spec_has_missed(&self) -> bool {
        self.distance == MISSED
    }

    /// A hit that records no intersection yet. Its position carries no
    /// meaning until something is hit.
    pub fn missed(pos: P) -> (h: Hit<P>)
        ensures
            h == (Hit { distance: MISSED, pos }),
    {
        Hit { distance: MISSED, pos }
    }

    pub fn has_missed(&self) -> (m: bool)
        ensures
            m == self.spec_has_missed(),
    {
        self.distance == MISSED
    }

    pub fn set_missed(&mut self)
        ensures
            *final(self) == (Hit { distance: MISSED, pos: old(self).pos }),
    {
        self.distance = MISSED;
    }
}

/// The better of a hit and a candidate: the candidate where it is strictly
/// nearer, else the hit as it was. On equal distances the earlier one stays.
pub open spec fn nearer<P>(hit: Hit<P>, candidate: Hit<P>) -> Hit<P> {
    if candidate.distance < hit.distance {
        candidate
    } else {
        hit
    }
}

/// A shape that can say how far along a ray the ray first meets it.
pub trait DistanceMeasure<R> {
    /// The key that `distance_from_ray` returns for `r`; `MISSED` or more
    /// where the ray does not meet the shape.
    spec fn ray_distance(&self, r: &R) -> u32;

    fn distance_from_ray(&self, r: &R) -> (d: u32)
        ensures
            d == self.ray_distance(r),
    ;
}

/// A shape that can be hit by a ray.
pub trait Intersectable<R, P> {
    /// What the shape records on `ray` where nothing nearer is known: the
    /// distance at which the ray meets it, and the surface point there.
    spec fn candidate(&self, ray: &R) -> Hit<P>;

    /// Overwrites `hit` where the shape is met strictly nearer than
    /// `hit.distance`, and leaves it untouched otherwise.
    fn intersect(&self, hit: &mut Hit<P>, ray: &R)
        ensures
            *final(hit) == nearer(*old(hit), self.candidate(ray)),
    ;
}

} // verus!
