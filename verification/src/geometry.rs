//! Points, offsets, sizes and rectangles on the integer scene lattice.

use vstd::prelude::*;

verus! {

/// Largest magnitude of a scene coordinate (2^28). Two scene coordinates are
/// at most 2^29 apart, so the area of a box of the scene is at most 2^58 and
/// the squared distance of two scene points at most 2^59: a sum of up to a
/// dozen of either stays inside `i64`.
pub const SCENE_LIMIT: i64 = 268_435_456;

/// Whether `c` is a coordinate of the scene.
pub open spec fn in_scene(c: int) -> bool {
    -SCENE_LIMIT <= c <= SCENE_LIMIT
}

/// Whether `c` is a coordinate of the scene.
pub fn is_in_scene(c: i64) -> (inside: bool)
    ensures
        inside == in_scene(c as int),
{
    -SCENE_LIMIT <= c && c <= SCENE_LIMIT
}

/// Whether `c + d` is a coordinate of the scene.
fn sum_in_scene(c: i64, d: i64) -> (inside: bool)
    ensures
        inside == in_scene(c + d),
{
    match c.checked_add(d) {
        Some(sum) => is_in_scene(sum),
        None => false,
    }
}

/// A position in the scene.
#[derive(Clone, Copy, Debug, PartialEq, Eq, Structural)]
pub struct Point {
    pub x: i64,
    pub y: i64,
}

/// A displacement between two positions.
#[derive(Clone, Copy, Debug, PartialEq, Eq, Structural)]
pub struct Vec2 {
    pub x: i64,
    pub y: i64,
}

/// The extent of a rectangle.
#[derive(Clone, Copy, Debug, PartialEq, Eq, Structural)]
pub struct Size {
    pub width: i64,
    pub height: i64,
}

/// An axis-aligned rectangle given by two opposite corners.
#[derive(Clone, Copy, Debug, PartialEq, Eq, Structural)]
pub struct Rect {
    pub x0: i64,
    pub y0: i64,
    pub x1: i64,
    pub y1: i64,
}

impl Point {
    /// The position `(x, y)`.
    pub fn new(x: i64, y: i64) -> (p: Point)
        ensures
            p == (Point { x, y }),
    {
        Point { x, y }
    }

    /// Both coordinates lie in the scene.
    pub open spec fn in_scene(self) -> bool {
        in_scene(self.x as int) && in_scene(self.y as int)
    }

    /// Whether both coordinates lie in the scene.
    pub fn is_in_scene(&self) -> (inside: bool)
        ensures
            inside == self.in_scene(),
    {
        is_in_scene(self.x) && is_in_scene(self.y)
    }

    /// The position reached from this one by `d`.
    pub fn translate(self, d: Vec2) -> (p: Point)
        requires
            i64::MIN <= self.x + d.x <= i64::MAX,
            i64::MIN <= self.y + d.y <= i64::MAX,
        ensures
            p.x == self.x + d.x,
            p.y == self.y + d.y,
    {
        Point { x: self.x + d.x, y: self.y + d.y }
    }
}

impl Vec2 {
    /// The displacement `(x, y)`.
    pub fn new(x: i64, y: i64) -> (v: Vec2)
        ensures
            v == (Vec2 { x, y }),
    {
        Vec2 { x, y }
    }

    /// The opposite displacement.
    pub open spec fn reversed(self) -> Vec2 {
        Vec2 { x: (-self.x) as i64, y: (-self.y) as i64 }
    }
}

impl Size {
    /// The extent `width` by `height`.
    pub fn new(width: i64, height: i64) -> (s: Size)
        ensures
            s == (Size { width, height }),
    {
        Size { width, height }
    }

    /// Both extents are non-negative and no wider than the scene's half-width.
    pub open spec fn fits(self) -> bool {
        0 <= self.width <= SCENE_LIMIT && 0 <= self.height <= SCENE_LIMIT
    }

    /// Whether both extents are non-negative and no wider than the scene's
    /// half-width.
    pub fn does_fit(&self) -> (ok: bool)
        ensures
            ok == self.fits(),
    {
        0 <= self.width && self.width <= SCENE_LIMIT && 0 <= self.height && self.height
            <= SCENE_LIMIT
    }
}

impl Rect {
    /// The rectangle of extent `size` whose midpoint is `center`: the lower
    /// corner lies half the extent, rounded down, before the centre.
    pub open spec fn centered(center: Point, size: Size) -> Rect {
        Rect {
            x0: (center.x - size.width / 2) as i64,
            y0: (center.y - size.height / 2) as i64,
            x1: (center.x - size.width / 2 + size.width) as i64,
            y1: (center.y - size.height / 2 + size.height) as i64,
        }
    }

    /// The rectangle of extent `size` whose midpoint is `center`.
    pub fn from_center_size(center: Point, size: Size) -> (r: Rect)
        requires
            center.in_scene(),
            size.fits(),
        ensures
            r == Self::centered(center, size),
            r.x0 <= r.x1,
            r.y0 <= r.y1,
            r.x1 - r.x0 == size.width,
            r.y1 - r.y0 == size.height,
    {
        let x0: i64 = center.x - size.width / 2;
        let y0: i64 = center.y - size.height / 2;
        Rect { x0, y0, x1: x0 + size.width, y1: y0 + size.height }
    }

    /// All four coordinates lie in the scene.
    pub open spec fn in_scene(self) -> bool {
        in_scene(self.x0 as int) && in_scene(self.y0 as int) && in_scene(self.x1 as int)
            && in_scene(self.y1 as int)
    }

    /// The midpoint of the two corners, each coordinate rounded down.
    pub open spec fn mid(self) -> Point {
        Point { x: ((self.x0 + self.x1) / 2) as i64, y: ((self.y0 + self.y1) / 2) as i64 }
    }

    /// Whether all four coordinates lie in the scene.
    pub fn is_in_scene(&self) -> (inside: bool)
        ensures
            inside == self.in_scene(),
    {
        is_in_scene(self.x0) && is_in_scene(self.y0) && is_in_scene(self.x1) && is_in_scene(
            self.y1,
        )
    }

    /// Whether the rectangle moved by `d` still lies in the scene.
    pub fn can_shift(&self, d: Vec2) -> (ok: bool)
        ensures
            ok == self.shift_fits(d),
    {
        sum_in_scene(self.x0, d.x) && sum_in_scene(self.y0, d.y) && sum_in_scene(self.x1, d.x)
            && sum_in_scene(self.y1, d.y)
    }

    /// The rectangle moved by `d`.
    pub open spec fn shifted(self, d: Vec2) -> Rect {
        Rect {
            x0: (self.x0 + d.x) as i64,
            y0: (self.y0 + d.y) as i64,
            x1: (self.x1 + d.x) as i64,
            y1: (self.y1 + d.y) as i64,
        }
    }

    /// Whether the rectangle moved by `d` still lies in the scene.
    pub open spec fn shift_fits(self, d: Vec2) -> bool {
        &&& in_scene(self.x0 + d.x)
        &&& in_scene(self.y0 + d.y)
        &&& in_scene(self.x1 + d.x)
        &&& in_scene(self.y1 + d.y)
    }

    /// The corner `(x0, y0)`.
    pub fn origin(&self) -> (o: Point)
        ensures
            o == (Point { x: self.x0, y: self.y0 }),
    {
        Point { x: self.x0, y: self.y0 }
    }

    /// The rectangle of the same extent whose origin is `o`.
    pub fn with_origin(&self, o: Point) -> (r: Rect)
        requires
            self.in_scene(),
            in_scene(o.x + (self.x1 - self.x0)),
            in_scene(o.y + (self.y1 - self.y0)),
        ensures
            r.x0 == o.x,
            r.y0 == o.y,
            r.x1 == o.x + (self.x1 - self.x0),
            r.y1 == o.y + (self.y1 - self.y0),
    {
        Rect { x0: o.x, y0: o.y, x1: o.x + (self.x1 - self.x0), y1: o.y + (self.y1 - self.y0) }
    }

    /// Moves the rectangle by `d`: its origin moves, its extent stays.
    pub fn translate(&self, d: Vec2) -> (r: Rect)
        requires
            self.in_scene(),
            self.shift_fits(d),
        ensures
            r == self.shifted(d),
            r.in_scene(),
    {
        self.with_origin(self.origin().translate(d))
    }

    /// Whether `p` lies between the two corners, the border included.
    pub open spec fn contains(self, p: Point) -> bool {
        &&& (self.x0 <= p.x <= self.x1 || self.x1 <= p.x <= self.x0)
        &&& (self.y0 <= p.y <= self.y1 || self.y1 <= p.y <= self.y0)
    }

    /// Moving a rectangle of the scene by `d`, where that keeps it in the
    /// scene, and then by the opposite of `d` gives the rectangle back.
    pub proof fn lemma_shift_back(self, d: Vec2)
        requires
            self.in_scene(),
            self.shift_fits(d),
        ensures
            self.shifted(d).shift_fits(d.reversed()),
            self.shifted(d).shifted(d.reversed()) == self,
    {
    }

    /// The midpoint of a rectangle of the scene lies in the scene.
    pub proof fn lemma_mid_in_scene(self)
        requires
            self.in_scene(),
        ensures
            self.mid().in_scene(),
    {
    }

    /// The centre of the rectangle, each coordinate rounded down.
    pub fn center(&self) -> (c: Point)
        requires
            self.in_scene(),
        ensures
            c == self.mid(),
            c.in_scene(),
    {
        Point { x: midpoint(self.x0, self.x1), y: midpoint(self.y0, self.y1) }
    }
}

/// The mean of two scene coordinates, rounded toward negative infinity.
fn midpoint(a: i64, b: i64) -> (m: i64)
    requires
        in_scene(a as int),
        in_scene(b as int),
    ensures
        m == (a + b) / 2,
        in_scene(m as int),
{
    let lo: i64 = if a <= b { a } else { b };
    let hi: i64 = if a <= b { b } else { a };
    lo + (hi - lo) / 2
}

} // verus!
