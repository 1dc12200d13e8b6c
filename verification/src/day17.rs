//! Trick shot: a probe launched with an integer velocity, pulled by drag
//! and gravity, aimed at a rectangular target area.
use vstd::prelude::*;

verus! {

/// The rectangular target, as inclusive coordinate ranges.
#[derive(Debug, Copy, Clone, PartialEq, Eq)]
pub struct TargetArea {
    pub x: (i32, i32),
    pub y: (i32, i32),
}

impl TargetArea {
    /// Whether `(x, y)` lies inside the target.
    pub fn in_target(&self, x: i32, y: i32) -> (r: bool)
        ensures
            r == (self.x.0 <= x <= self.x.1 && self.y.0 <= y <= self.y.1),
    {
        x >= self.x.0 && x <= self.x.1 && y >= self.y.0 && y <= self.y.1
    }

    /// Whether `(x, y)` lies beyond the target, with no way back.
    pub fn missed_target(&self, x: i32, y: i32) -> (r: bool)
        ensures
            r == (x > self.x.1 || y < self.y.0),
    {
        x > self.x.1 || y < self.y.0
    }
}

/// The probe in flight: position, velocity, and the highest point reached.
#[derive(Debug, Copy, Clone, PartialEq, Eq)]
pub struct Probe {
    pub x: i32,
    pub y: i32,
    pub dx: i32,
    pub dy: i32,
    pub maxy: i32,
}

impl Probe {
    /// A probe at the origin with the given initial velocity.
    pub fn new(dx: i32, dy: i32) -> (p: Probe)
        ensures
            p == (Probe { x: 0, y: 0, dx, dy, maxy: 0 }),
    {
        Probe { x: 0, y: 0, dx, dy, maxy: 0 }
    }

    /// One step of flight: drag slows the probe, gravity pulls it down.
    pub fn next(&mut self) -> (pos: (i32, i32))
        requires
            old(self).dx > 0 ==> i32::MIN <= old(self).x + old(self).dx <= i32::MAX,
            i32::MIN <= old(self).y + old(self).dy <= i32::MAX,
            i32::MIN < old(self).dy,
        ensures
            old(self).dx > 0 ==> final(self).x == old(self).x + old(self).dx && final(self).dx
                == old(self).dx - 1,
            old(self).dx <= 0 ==> final(self).x == old(self).x && final(self).dx == old(self).dx,
            final(self).y == old(self).y + old(self).dy,
            final(self).dy == old(self).dy - 1,
            final(self).maxy == if final(self).y > old(self).maxy {
                final(self).y
            } else {
                old(self).maxy
            },
            pos == (final(self).x, final(self).y),
    {
        if self.dx > 0 {
            self.x = self.x + self.dx;
            self.dx = self.dx - 1;
        }
        self.y = self.y + self.dy;
        self.dy = self.dy - 1;
        if self.y > self.maxy {
            self.maxy = self.y;
        }
        (self.x, self.y)
    }
}

} // verus!
