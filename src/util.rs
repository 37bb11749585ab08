use vstd::prelude::*;

verus! {

/// A size or a position on a raster surface.
#[derive(Copy, Clone, Debug, PartialEq, Eq, Structural)]
pub struct Vec2 {
    pub x: u32,
    pub y: u32,
}

impl Vec2 {
    pub open spec fn spec_zero() -> Vec2 {
        Vec2 { x: 0, y: 0 }
    }

    pub fn zero() -> (r: Self)
        ensures
            r.x == 0 && r.y == 0,
    {
        Vec2 { x: 0, y: 0 }
    }

    pub fn from(x: u32, y: u32) -> (r: Self)
        ensures
            r.x == x && r.y == y,
    {
        Vec2 { x, y }
    }

    /// Both components grown by `other`.
    pub fn add(self, other: u32) -> (r: Self)
        requires
            self.x + other <= u32::MAX,
            self.y + other <= u32::MAX,
        ensures
            r.x == self.x + other,
            r.y == self.y + other,
    {
        Vec2 { x: self.x + other, y: self.y + other }
    }

    /// Both components shrunk by `other`; the caller clamps beforehand.
    pub fn sub(self, other: u32) -> (r: Self)
        requires
            other <= self.x,
            other <= self.y,
        ensures
            r.x == self.x - other,
            r.y == self.y - other,
    {
        Vec2 { x: self.x - other, y: self.y - other }
    }

    pub fn sub2(self, x: u32, y: u32) -> (r: Self)
        requires
            x <= self.x,
            y <= self.y,
        ensures
            r.x == self.x - x,
            r.y == self.y - y,
    {
        Vec2 { x: self.x - x, y: self.y - y }
    }
}

/// The strict dominance order: `a < b` when both components of `a` are below
/// those of `b`, `a > b` when both are above, equal when both are equal, and
/// unordered otherwise.
pub open spec fn dominance(a: Vec2, b: Vec2) -> Option<std::cmp::Ordering> {
    if a.x < b.x && a.y < b.y {
        Some(std::cmp::Ordering::Less)
    } else if a.x > b.x && a.y > b.y {
        Some(std::cmp::Ordering::Greater)
    } else if a.x == b.x && a.y == b.y {
        Some(std::cmp::Ordering::Equal)
    } else {
        None
    }
}

impl PartialOrd for Vec2 {
    fn partial_cmp(&self, other: &Vec2) -> (r: Option<std::cmp::Ordering>) {
        if self.x < other.x && self.y < other.y {
            Some(std::cmp::Ordering::Less)
        } else if self.x > other.x && self.y > other.y {
            Some(std::cmp::Ordering::Greater)
        } else if self.x == other.x && self.y == other.y {
            Some(std::cmp::Ordering::Equal)
        } else {
            None
        }
    }
}

impl vstd::std_specs::cmp::PartialOrdSpecImpl for Vec2 {
    open spec fn obeys_partial_cmp_spec() -> bool {
        true
    }

    open spec fn partial_cmp_spec(&self, other: &Vec2) -> Option<std::cmp::Ordering> {
        dominance(*self, *other)
    }
}

} // verus!
