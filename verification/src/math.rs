//! Integer 2D geometry: vectors, axis-aligned rectangles and translations.
//!
//! Coordinates are `i64` world units. All arithmetic saturates at the ends of
//! the `i64` range, so every operation is total and its result is pinned
//! exactly by `sat_add_spec` / `sat_sub_spec`.

use vstd::prelude::*;

verus! {

/// Mathematical value of a saturating addition on `i64`.
pub open spec fn sat_add_spec(a: int, b: int) -> int {
    if a + b > i64::MAX {
        i64::MAX as int
    } else if a + b < i64::MIN {
        i64::MIN as int
    } else {
        a + b
    }
}

/// Mathematical value of a saturating subtraction on `i64`.
pub open spec fn sat_sub_spec(a: int, b: int) -> int {
    sat_add_spec(a, -b)
}

/// Saturating addition: `a + b` clamped to the `i64` range.
pub fn sat_add(a: i64, b: i64) -> (r: i64)
    ensures
        r == sat_add_spec(a as int, b as int),
{
    if b >= 0 {
        if a > i64::MAX - b {
            i64::MAX
        } else {
            a + b
        }
    } else {
        if a < i64::MIN - b {
            i64::MIN
        } else {
            a + b
        }
    }
}

/// Saturating subtraction: `a - b` clamped to the `i64` range.
pub fn sat_sub(a: i64, b: i64) -> (r: i64)
    ensures
        r == sat_sub_spec(a as int, b as int),
{
    if b <= 0 {
        if a > i64::MAX + b {
            i64::MAX
        } else {
            a - b
        }
    } else {
        if a < i64::MIN + b {
            i64::MIN
        } else {
            a - b
        }
    }
}

/// The remainder of `a` by `m` with the dividend's sign, as Rust's `%` and
/// `fmod` compute it: the result of `rem` below.
pub open spec fn rem_toward_zero(a: int, m: int) -> int
    recommends
        m > 0,
{
    if a >= 0 {
        a % m
    } else {
        -((-a) % m)
    }
}

/// Truncating remainder on `i64`, total for every dividend.
pub fn rem(a: i64, m: i64) -> (r: i64)
    requires
        m > 0,
    ensures
        r == rem_toward_zero(a as int, m as int),
{
    if a >= 0 {
        ((a as u64) % (m as u64)) as i64
    } else {
        let magnitude = ((-(a + 1)) as u64) + 1;
        let p = magnitude % (m as u64);
        proof {
            assert(magnitude == -(a as int));
            assert(p < m);
        }
        -(p as i64)
    }
}

/// A point or displacement in the 2D world.
#[derive(Clone, Copy, Debug, PartialEq, Eq, Structural)]
pub struct Vector {
    pub x: i64,
    pub y: i64,
}

/// Shorthand constructor, mirroring the struct literal.
pub fn vector(x: i64, y: i64) -> (v: Vector)
    ensures
        v == (Vector { x, y }),
{
    Vector { x, y }
}

impl Vector {
    pub fn zero() -> (v: Vector)
        ensures
            v == (Vector { x: 0i64, y: 0i64 }),
    {
        Vector { x: 0, y: 0 }
    }

    /// Component-wise saturating addition.
    pub open spec fn spec_plus(self, other: Vector) -> Vector {
        Vector {
            x: sat_add_spec(self.x as int, other.x as int) as i64,
            y: sat_add_spec(self.y as int, other.y as int) as i64,
        }
    }

    pub fn plus(self, other: Vector) -> (v: Vector)
        ensures
            v == self.spec_plus(other),
    {
        Vector { x: sat_add(self.x, other.x), y: sat_add(self.y, other.y) }
    }

    /// Component-wise saturating subtraction.
    pub open spec fn spec_minus(self, other: Vector) -> Vector {
        Vector {
            x: sat_sub_spec(self.x as int, other.x as int) as i64,
            y: sat_sub_spec(self.y as int, other.y as int) as i64,
        }
    }

    pub fn minus(self, other: Vector) -> (v: Vector)
        ensures
            v == self.spec_minus(other),
    {
        Vector { x: sat_sub(self.x, other.x), y: sat_sub(self.y, other.y) }
    }

    /// Component-wise saturating negation (`-i64::MIN` clamps to `i64::MAX`).
    pub open spec fn spec_neg(self) -> Vector {
        Vector {
            x: sat_sub_spec(0, self.x as int) as i64,
            y: sat_sub_spec(0, self.y as int) as i64,
        }
    }

    pub fn neg(self) -> (v: Vector)
        ensures
            v == self.spec_neg(),
    {
        Vector { x: sat_sub(0, self.x), y: sat_sub(0, self.y) }
    }
}

/// An axis-aligned rectangle, kept as its lower-left and upper-right corners.
/// A rectangle with `min.x >= max.x` or `min.y >= max.y` is empty.
#[derive(Clone, Copy, Debug, PartialEq, Eq, Structural)]
pub struct Rect {
    pub min: Vector,
    pub max: Vector,
}

impl Rect {
    pub fn with_min_max(min: Vector, max: Vector) -> (r: Rect)
        ensures
            r == (Rect { min, max }),
    {
        Rect { min, max }
    }

    pub fn with_min_size(min: Vector, size: Vector) -> (r: Rect)
        ensures
            r == (Rect { min, max: min.spec_plus(size) }),
    {
        Rect { min, max: min.plus(size) }
    }

    pub fn min(&self) -> (v: Vector)
        ensures
            v == self.min,
    {
        self.min
    }

    pub fn max(&self) -> (v: Vector)
        ensures
            v == self.max,
    {
        self.max
    }

    pub fn size(&self) -> (v: Vector)
        ensures
            v == self.max.spec_minus(self.min),
    {
        self.max.minus(self.min)
    }

    pub fn left(&self) -> (s: i64)
        ensures
            s == self.min.x,
    {
        self.min.x
    }

    pub fn right(&self) -> (s: i64)
        ensures
            s == self.max.x,
    {
        self.max.x
    }

    pub fn bottom(&self) -> (s: i64)
        ensures
            s == self.min.y,
    {
        self.min.y
    }

    pub fn top(&self) -> (s: i64)
        ensures
            s == self.max.y,
    {
        self.max.y
    }

    /// Both corners shifted by `offset`.
    pub open spec fn spec_offset(self, offset: Vector) -> Rect {
        Rect { min: self.min.spec_plus(offset), max: self.max.spec_plus(offset) }
    }

    pub fn offset(&self, offset: Vector) -> (r: Rect)
        ensures
            r == self.spec_offset(offset),
    {
        Rect { min: self.min.plus(offset), max: self.max.plus(offset) }
    }

    /// The common region of two rectangles, as corner coordinates; it only
    /// counts as an intersection when it has positive width and height.
    pub open spec fn spec_overlap(self, other: Rect) -> Rect {
        Rect {
            min: Vector {
                x: if self.min.x < other.min.x {
                    other.min.x
                } else {
                    self.min.x
                },
                y: if self.min.y < other.min.y {
                    other.min.y
                } else {
                    self.min.y
                },
            },
            max: Vector {
                x: if self.max.x > other.max.x {
                    other.max.x
                } else {
                    self.max.x
                },
                y: if self.max.y > other.max.y {
                    other.max.y
                } else {
                    self.max.y
                },
            },
        }
    }

    /// Whether the two rectangles share a region of positive area.
    pub open spec fn spec_intersects(self, other: Rect) -> bool {
        self.spec_overlap(other).min.x < self.spec_overlap(other).max.x
            && self.spec_overlap(other).min.y < self.spec_overlap(other).max.y
    }

    /// Returns the overlapping region if the rectangles intersect with
    /// positive area, and nothing otherwise.
    pub fn intersect(&self, other: &Rect) -> (r: Option<Rect>)
        ensures
            self.spec_intersects(*other) ==> r == Some(self.spec_overlap(*other)),
            !self.spec_intersects(*other) ==> r is None,
    {
        let min = Vector {
            x: if self.min.x < other.min.x {
                other.min.x
            } else {
                self.min.x
            },
            y: if self.min.y < other.min.y {
                other.min.y
            } else {
                self.min.y
            },
        };
        let max = Vector {
            x: if self.max.x > other.max.x {
                other.max.x
            } else {
                self.max.x
            },
            y: if self.max.y > other.max.y {
                other.max.y
            } else {
                self.max.y
            },
        };
        if min.x < max.x && min.y < max.y {
            Some(Rect { min, max })
        } else {
            None
        }
    }
}

/// A world-space placement. The engine's verified core only moves things
/// around, so a transform is a translation; rotation and scale live with the
/// renderer, which consumes draw commands produced here.
#[derive(Clone, Copy, Debug, PartialEq, Eq, Structural)]
pub struct Transform {
    pub pos: Vector,
}

impl Transform {
    pub fn identity() -> (t: Transform)
        ensures
            t == (Transform { pos: Vector { x: 0i64, y: 0i64 } }),
    {
        Transform { pos: Vector { x: 0, y: 0 } }
    }

    pub fn offset(offset: Vector) -> (t: Transform)
        ensures
            t == (Transform { pos: offset }),
    {
        Transform { pos: offset }
    }

    pub fn position(&self) -> (v: Vector)
        ensures
            v == self.pos,
    {
        self.pos
    }

    pub fn set_position(&mut self, position: Vector)
        ensures
            *final(self) == (Transform { pos: position }),
    {
        self.pos = position;
    }

    /// Applying `self` after `rhs`: the translations add (saturating).
    pub open spec fn spec_compose(self, rhs: Transform) -> Transform {
        Transform { pos: self.pos.spec_plus(rhs.pos) }
    }

    pub fn compose(self, rhs: Transform) -> (t: Transform)
        ensures
            t == self.spec_compose(rhs),
    {
        Transform { pos: self.pos.plus(rhs.pos) }
    }

    /// The inverse translation (saturating at the edge of the range).
    pub fn invert(&self) -> (t: Transform)
        ensures
            t == (Transform { pos: self.pos.spec_neg() }),
    {
        Transform { pos: self.pos.neg() }
    }

    /// Where this transform places the point `v`.
    pub fn apply(&self, v: Vector) -> (r: Vector)
        ensures
            r == v.spec_plus(self.pos),
    {
        v.plus(self.pos)
    }
}

} // verus!
