//! Reactor reboot: axis-aligned cuboid regions switched on and off.
use vstd::prelude::*;

verus! {

/// An axis-aligned cuboid, as inclusive coordinate ranges.
#[derive(Debug, Copy, Clone, PartialEq, Eq)]
pub struct Region {
    pub x: (isize, isize),
    pub y: (isize, isize),
    pub z: (isize, isize),
}

impl Region {
    /// The common part of two regions: the overlap box of their ranges.
    pub fn union(&self, other: &Region) -> (r: Region)
        ensures
            r.x.0 == if self.x.0 >= other.x.0 {
                self.x.0
            } else {
                other.x.0
            },
            r.x.1 == if self.x.1 <= other.x.1 {
                self.x.1
            } else {
                other.x.1
            },
            r.y.0 == if self.y.0 >= other.y.0 {
                self.y.0
            } else {
                other.y.0
            },
            r.y.1 == if self.y.1 <= other.y.1 {
                self.y.1
            } else {
                other.y.1
            },
            r.z.0 == if self.z.0 >= other.z.0 {
                self.z.0
            } else {
                other.z.0
            },
            r.z.1 == if self.z.1 <= other.z.1 {
                self.z.1
            } else {
                other.z.1
            },
    {
        let xmin = if self.x.0 >= other.x.0 {
            self.x.0
        } else {
            other.x.0
        };
        let xmax = if self.x.1 <= other.x.1 {
            self.x.1
        } else {
            other.x.1
        };
        let ymin = if self.y.0 >= other.y.0 {
            self.y.0
        } else {
            other.y.0
        };
        let ymax = if self.y.1 <= other.y.1 {
            self.y.1
        } else {
            other.y.1
        };
        let zmin = if self.z.0 >= other.z.0 {
            self.z.0
        } else {
            other.z.0
        };
        let zmax = if self.z.1 <= other.z.1 {
            self.z.1
        } else {
            other.z.1
        };
        Region { x: (xmin, xmax), y: (ymin, ymax), z: (zmin, zmax) }
    }

    /// Whether some endpoint of `other`'s ranges falls within this
    /// region's corresponding range.
    pub fn is_overlapping(&self, other: &Region) -> (r: bool)
        ensures
            r == ((self.x.0 <= other.x.0 <= self.x.1) || (self.x.0 <= other.x.1 <= self.x.1) || (
            self.y.0 <= other.y.0 <= self.y.1) || (self.y.0 <= other.y.1 <= self.y.1) || (self.z.0
                <= other.z.0 <= self.z.1) || (self.z.0 <= other.z.1 <= self.z.1)),
    {
        if other.x.0 >= self.x.0 && other.x.0 <= self.x.1 {
            return true;
        }
        if other.x.1 >= self.x.0 && other.x.1 <= self.x.1 {
            return true;
        }
        if other.y.0 >= self.y.0 && other.y.0 <= self.y.1 {
            return true;
        }
        if other.y.1 >= self.y.0 && other.y.1 <= self.y.1 {
            return true;
        }
        if other.z.0 >= self.z.0 && other.z.0 <= self.z.1 {
            return true;
        }
        if other.z.1 >= self.z.0 && other.z.1 <= self.z.1 {
            return true;
        }
        false
    }

    /// How many unit cubes the region holds.
    pub fn cubes(&self) -> (c: usize)
        requires
            self.x.0 <= self.x.1,
            self.y.0 <= self.y.1,
            self.z.0 <= self.z.1,
            self.x.1 - self.x.0 < isize::MAX,
            self.y.1 - self.y.0 < isize::MAX,
            self.z.1 - self.z.0 < isize::MAX,
            (self.x.1 - self.x.0 + 1) * (self.y.1 - self.y.0 + 1) * (self.z.1 - self.z.0 + 1)
                <= usize::MAX,
    ensures
            c == (self.x.1 - self.x.0 + 1) * (self.y.1 - self.y.0 + 1) * (self.z.1 - self.z.0
                + 1),
    {
        let (x, y, z) = self.size();
        proof {
            let a = self.x.1 - self.x.0 + 1;
            let b = self.y.1 - self.y.0 + 1;
            let d = self.z.1 - self.z.0 + 1;
            assert(a * b <= a * b * d && a * b * d <= usize::MAX && a * b >= 0)
                by (nonlinear_arith)
                requires
                    a >= 1,
                    b >= 1,
                    d >= 1,
                    a * b * d <= usize::MAX,
            ;
        }
        x * y * z
    }

    /// The region's extent along each axis.
    pub fn size(&self) -> (s: (usize, usize, usize))
        requires
            self.x.0 <= self.x.1,
            self.y.0 <= self.y.1,
            self.z.0 <= self.z.1,
            self.x.1 - self.x.0 < isize::MAX,
            self.y.1 - self.y.0 < isize::MAX,
            self.z.1 - self.z.0 < isize::MAX,
        ensures
            s.0 == self.x.1 - self.x.0 + 1,
            s.1 == self.y.1 - self.y.0 + 1,
            s.2 == self.z.1 - self.z.0 + 1,
    {
        (
            (self.x.1 - self.x.0 + 1) as usize,
            (self.y.1 - self.y.0 + 1) as usize,
            (self.z.1 - self.z.0 + 1) as usize,
        )
    }
}

/// One reboot instruction: a region switched on or off.
#[derive(Debug, Copy, Clone, PartialEq, Eq)]
pub struct RebootStep {
    pub on: bool,
    pub region: Region,
}

impl RebootStep {
    pub fn new(on: bool, region: Region) -> (s: RebootStep)
        ensures
            s.on == on,
            s.region == region,
    {
        RebootStep { on, region }
    }
}

} // verus!
