use vstd::prelude::*;
use vstd::std_specs::ops::AddSpecImpl;
use vstd::std_specs::ops::SubSpecImpl;
use vstd::std_specs::convert::FromSpecImpl;

use crate::arith::{fits_i32, max_i32, min_i32};

verus! {

/// An integer 2D vector, used for sizes, positions and offsets.
#[derive(Debug, Clone, Copy)]
pub struct Vec2i {
    pub x: i32,
    pub y: i32,
}

impl Vec2i {
    /// Whether the componentwise sum of `self` and `other` fits in `i32`.
    pub open spec fn can_add(self, other: Vec2i) -> bool {
        fits_i32(self.x + other.x) && fits_i32(self.y + other.y)
    }

    /// Whether the componentwise difference of `self` and `other` fits in `i32`.
    pub open spec fn can_sub(self, other: Vec2i) -> bool {
        fits_i32(self.x - other.x) && fits_i32(self.y - other.y)
    }

    /// The componentwise sum, as `+` computes it.
    pub open spec fn plus(self, other: Vec2i) -> Vec2i {
        Vec2i { x: (self.x + other.x) as i32, y: (self.y + other.y) as i32 }
    }

    /// The componentwise difference, as `-` computes it.
    pub open spec fn minus(self, other: Vec2i) -> Vec2i {
        Vec2i { x: (self.x - other.x) as i32, y: (self.y - other.y) as i32 }
    }

    pub fn new(x: i32, y: i32) -> (r: Self)
        ensures
            r.x == x,
            r.y == y,
    {
        Self { x: x, y: y }
    }

    pub fn zero() -> (r: Self)
        ensures
            r.x == 0,
            r.y == 0,
    {
        Self { x: 0, y: 0 }
    }

    /// Componentwise maximum.
    pub fn max(self, other: Self) -> (r: Self)
        ensures
            r.x == max_i32(self.x as int, other.x as int),
            r.y == max_i32(self.y as int, other.y as int),
    {
        let x = if self.x >= other.x { self.x } else { other.x };
        let y = if self.y >= other.y { self.y } else { other.y };
        Self { x: x, y: y }
    }

    /// Componentwise minimum.
    pub fn min(self, other: Self) -> (r: Self)
        ensures
            r.x == min_i32(self.x as int, other.x as int),
            r.y == min_i32(self.y as int, other.y as int),
    {
        let x = if self.x <= other.x { self.x } else { other.x };
        let y = if self.y <= other.y { self.y } else { other.y };
        Self { x: x, y: y }
    }
}

impl std::ops::Add for Vec2i {
    type Output = Vec2i;

    fn add(self, rhs: Self) -> (r: Self::Output) {
        Vec2i::new(self.x + rhs.x, self.y + rhs.y)
    }
}

impl AddSpecImpl for Vec2i {
    open spec fn obeys_add_spec() -> bool {
        true
    }

    open spec fn add_req(self, rhs: Vec2i) -> bool {
        self.can_add(rhs)
    }

    open spec fn add_spec(self, rhs: Vec2i) -> Vec2i {
        self.plus(rhs)
    }
}

impl std::ops::Sub for Vec2i {
    type Output = Vec2i;

    fn sub(self, rhs: Self) -> (r: Self::Output) {
        Vec2i::new(self.x - rhs.x, self.y - rhs.y)
    }
}

impl SubSpecImpl for Vec2i {
    open spec fn obeys_sub_spec() -> bool {
        true
    }

    open spec fn sub_req(self, rhs: Vec2i) -> bool {
        self.can_sub(rhs)
    }

    open spec fn sub_spec(self, rhs: Vec2i) -> Vec2i {
        self.minus(rhs)
    }
}

impl From<(i32, i32)> for Vec2i {
    fn from(v: (i32, i32)) -> (r: Vec2i) {
        Vec2i::new(v.0, v.1)
    }
}

impl FromSpecImpl<(i32, i32)> for Vec2i {
    open spec fn obeys_from_spec() -> bool {
        true
    }

    open spec fn from_spec(v: (i32, i32)) -> Vec2i {
        Vec2i { x: v.0, y: v.1 }
    }
}

/// Adding a vector and then subtracting it again gives back the vector it started from.
pub proof fn lemma_add_sub_inverse(a: Vec2i, b: Vec2i)
    requires
        a.can_add(b),
    ensures
        a.plus(b).can_sub(b),
        a.plus(b).minus(b) == a,
{
}

/// The componentwise minimum never exceeds the componentwise maximum, and each is one of the
/// two arguments in each component.
pub proof fn lemma_min_le_max(a: Vec2i, b: Vec2i)
    ensures
        min_i32(a.x as int, b.x as int) <= max_i32(a.x as int, b.x as int),
        min_i32(a.y as int, b.y as int) <= max_i32(a.y as int, b.y as int),
        min_i32(a.x as int, b.x as int) + max_i32(a.x as int, b.x as int) == a.x + b.x,
        min_i32(a.y as int, b.y as int) + max_i32(a.y as int, b.y as int) == a.y + b.y,
{
}

} // verus!
