//! Points and axis-aligned bounding boxes over coordinate keys.
use vstd::prelude::*;

verus! {

/// A position in space, one order-preserving key per axis.
#[derive(Clone, Copy, Debug, PartialEq, Eq, Structural)]
pub struct Point3 {
    pub x: u32,
    pub y: u32,
    pub z: u32,
}

/// An axis-aligned bounding box, corner to corner.
///
/// The inverted sentinel (`min` at the top of the key range, `max` at the
/// bottom) is the identity element for box-growing folds: growing it by a
/// point yields that point's degenerate box.
#[derive(Clone, Copy, Debug, PartialEq, Eq, Structural)]
pub struct Aabb {
    pub min: Point3,
    pub max: Point3,
}

impl Aabb {
    /// A box holds a point when the point lies within all three axis ranges.
    pub open spec fn spec_contains_point(self, p: Point3) -> bool {
        &&& self.min.x <= p.x <= self.max.x
        &&& self.min.y <= p.y <= self.max.y
        &&& self.min.z <= p.z <= self.max.z
    }

    /// A box encloses another when every point of the inner box lies in it.
    pub open spec fn spec_encloses(self, inner: Aabb) -> bool {
        &&& self.min.x <= inner.min.x
        &&& self.min.y <= inner.min.y
        &&& self.min.z <= inner.min.z
        &&& inner.max.x <= self.max.x
        &&& inner.max.y <= self.max.y
        &&& inner.max.z <= self.max.z
    }

    /// Per axis the lower corner is no greater than the upper one, so the
    /// box holds at least one point. The inverted sentinel is excluded.
    pub open spec fn spec_valid(self) -> bool {
        &&& self.min.x <= self.max.x
        &&& self.min.y <= self.max.y
        &&& self.min.z <= self.max.z
    }

    /// The inverted/empty box, the identity for `grow`.
    pub fn new_max_inv() -> (r: Aabb)
        ensures
            r == Aabb::spec_max_inv(),
    {
        Aabb {
            min: Point3 { x: u32::MAX, y: u32::MAX, z: u32::MAX },
            max: Point3 { x: 0, y: 0, z: 0 },
        }
    }

    pub open spec fn spec_max_inv() -> Aabb {
        Aabb {
            min: Point3 { x: u32::MAX, y: u32::MAX, z: u32::MAX },
            max: Point3 { x: 0, y: 0, z: 0 },
        }
    }

    /// The least box holding both `self` and the point `p`.
    pub open spec fn spec_grown(self, p: Point3) -> Aabb {
        Aabb {
            min: Point3 {
                x: if p.x < self.min.x { p.x } else { self.min.x },
                y: if p.y < self.min.y { p.y } else { self.min.y },
                z: if p.z < self.min.z { p.z } else { self.min.z },
            },
            max: Point3 {
                x: if p.x > self.max.x { p.x } else { self.max.x },
                y: if p.y > self.max.y { p.y } else { self.max.y },
                z: if p.z > self.max.z { p.z } else { self.max.z },
            },
        }
    }

    /// Grow the box in place so that it also holds `p`.
    pub fn grow_from_point(&mut self, p: Point3)
        ensures
            *final(self) == old(self).spec_grown(p),
    {
        if p.x < self.min.x {
            self.min.x = p.x;
        }
        if p.y < self.min.y {
            self.min.y = p.y;
        }
        if p.z < self.min.z {
            self.min.z = p.z;
        }
        if p.x > self.max.x {
            self.max.x = p.x;
        }
        if p.y > self.max.y {
            self.max.y = p.y;
        }
        if p.z > self.max.z {
            self.max.z = p.z;
        }
    }

    /// The least box holding both operands.
    pub open spec fn spec_merged(self, other: Aabb) -> Aabb {
        Aabb {
            min: Point3 {
                x: if other.min.x < self.min.x { other.min.x } else { self.min.x },
                y: if other.min.y < self.min.y { other.min.y } else { self.min.y },
                z: if other.min.z < self.min.z { other.min.z } else { self.min.z },
            },
            max: Point3 {
                x: if other.max.x > self.max.x { other.max.x } else { self.max.x },
                y: if other.max.y > self.max.y { other.max.y } else { self.max.y },
                z: if other.max.z > self.max.z { other.max.z } else { self.max.z },
            },
        }
    }

    /// Merge `other` into `self`.
    pub fn grow_from_aabb(&mut self, other: &Aabb)
        ensures
            *final(self) == old(self).spec_merged(*other),
    {
        if other.min.x < self.min.x {
            self.min.x = other.min.x;
        }
        if other.min.y < self.min.y {
            self.min.y = other.min.y;
        }
        if other.min.z < self.min.z {
            self.min.z = other.min.z;
        }
        if other.max.x > self.max.x {
            self.max.x = other.max.x;
        }
        if other.max.y > self.max.y {
            self.max.y = other.max.y;
        }
        if other.max.z > self.max.z {
            self.max.z = other.max.z;
        }
    }

    /// Twice the sum of the pairwise face areas: `2*(dx*dy + dy*dz + dz*dx)`.
    /// The inverted sentinel counts as empty.
    pub open spec fn spec_surface_area(self) -> int {
        if self.spec_valid() {
            2 * ((self.max.x - self.min.x) * (self.max.y - self.min.y) + (self.max.y - self.min.y)
                * (self.max.z - self.min.z) + (self.max.z - self.min.z) * (self.max.x
                - self.min.x))
        } else {
            0
        }
    }

    /// Surface area of the box, used as the SAH cost weight.
    pub fn surface_area(&self) -> (r: u128)
        ensures
            r == self.spec_surface_area(),
    {
        if self.min.x <= self.max.x && self.min.y <= self.max.y && self.min.z <= self.max.z {
            let dx: u128 = (self.max.x - self.min.x) as u128;
            let dy: u128 = (self.max.y - self.min.y) as u128;
            let dz: u128 = (self.max.z - self.min.z) as u128;
            proof {
                assert(dx * dy < 0x10000000000000000 && dy * dz < 0x10000000000000000 && dz * dx
                    < 0x10000000000000000) by (nonlinear_arith)
                    requires
                        dx < 0x100000000 && dy < 0x100000000 && dz < 0x100000000,
                {}
            }
            2 * (dx * dy + dy * dz + dz * dx)
        } else {
            0
        }
    }

    /// Merging two boxes encloses both, and preserves validity.
    pub proof fn lemma_merged_encloses(a: Aabb, b: Aabb)
        ensures
            a.spec_merged(b).spec_encloses(a),
            a.spec_merged(b).spec_encloses(b),
            a.spec_valid() ==> a.spec_merged(b).spec_valid(),
    {
    }

    /// Enclosure is transitive along an ancestor chain.
    pub proof fn lemma_encloses_transitive(a: Aabb, b: Aabb, c: Aabb)
        requires
            a.spec_encloses(b),
            b.spec_encloses(c),
        ensures
            a.spec_encloses(c),
    {
    }
}

} // verus!
