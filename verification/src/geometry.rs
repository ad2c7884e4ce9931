use vstd::prelude::*;

verus! {

/// A point or an offset on the display, in pixels.
#[derive(Clone, Copy, Debug, PartialEq, Eq, Structural)]
pub struct Vec2 {
    pub x: u32,
    pub y: u32,
}

impl Vec2 {
    pub fn new(x: u32, y: u32) -> (r: Vec2)
        ensures
            r.x == x,
            r.y == y,
    {
        Vec2 { x, y }
    }

    /// The vector with both components equal to `val`.
    pub fn splat(val: u32) -> (r: Vec2)
        ensures
            r.x == val,
            r.y == val,
    {
        Vec2 { x: val, y: val }
    }

    /// Component-wise sum; the components must not overflow.
    pub fn add(self, rhs: Vec2) -> (r: Vec2)
        requires
            self.x + rhs.x <= u32::MAX,
            self.y + rhs.y <= u32::MAX,
        ensures
            r.x == self.x + rhs.x,
            r.y == self.y + rhs.y,
    {
        Vec2::new(self.x + rhs.x, self.y + rhs.y)
    }

    /// Component-wise sum in place; the components must not overflow.
    pub fn add_assign(&mut self, rhs: Vec2)
        requires
            old(self).x + rhs.x <= u32::MAX,
            old(self).y + rhs.y <= u32::MAX,
        ensures
            final(self).x == old(self).x + rhs.x,
            final(self).y == old(self).y + rhs.y,
    {
        self.x = self.x + rhs.x;
        self.y = self.y + rhs.y;
    }

    /// Component-wise difference; neither component may go below zero.
    pub fn sub(self, rhs: Vec2) -> (r: Vec2)
        requires
            rhs.x <= self.x,
            rhs.y <= self.y,
        ensures
            r.x == self.x - rhs.x,
            r.y == self.y - rhs.y,
    {
        Vec2::new(self.x - rhs.x, self.y - rhs.y)
    }
}

/// An axis-aligned rectangle of pixels; both corners belong to it.
#[derive(Clone, Copy, Debug, PartialEq, Eq, Structural)]
pub struct Bounds {
    pub min: Vec2,
    pub max: Vec2,
}

impl Bounds {
    /// Whether the point `(x, y)` lies in the rectangle, edges included.
    pub open spec fn holds(self, x: int, y: int) -> bool {
        &&& self.min.x <= x <= self.max.x
        &&& self.min.y <= y <= self.max.y
    }

    /// Whether shrinking by `delta` on every side stays within `u32`.
    pub open spec fn can_contract(self, delta: int) -> bool {
        &&& 0 <= delta
        &&& self.min.x + delta <= u32::MAX
        &&& self.min.y + delta <= u32::MAX
        &&& delta <= self.max.x
        &&& delta <= self.max.y
    }

    /// The rectangle moved inwards by `delta` on every side.
    pub open spec fn contracted(self, delta: int) -> Bounds {
        Bounds {
            min: Vec2 { x: (self.min.x + delta) as u32, y: (self.min.y + delta) as u32 },
            max: Vec2 { x: (self.max.x - delta) as u32, y: (self.max.y - delta) as u32 },
        }
    }

    pub fn new(min: (u32, u32), max: (u32, u32)) -> (r: Bounds)
        ensures
            r.min.x == min.0,
            r.min.y == min.1,
            r.max.x == max.0,
            r.max.y == max.1,
    {
        Bounds { min: Vec2::new(min.0, min.1), max: Vec2::new(max.0, max.1) }
    }

    /// The rectangle shrunk by `delta` pixels on every side.
    pub fn contract(&self, delta: u32) -> (r: Bounds)
        requires
            self.can_contract(delta as int),
        ensures
            r == self.contracted(delta as int),
    {
        Bounds { min: self.min.add(Vec2::splat(delta)), max: self.max.sub(Vec2::splat(delta)) }
    }

    pub fn contains(&self, pos: &Vec2) -> (r: bool)
        ensures
            r == self.holds(pos.x as int, pos.y as int),
    {
        pos.x <= self.max.x && pos.x >= self.min.x && pos.y <= self.max.y && pos.y >= self.min.y
    }

    /// Horizontal distance between the corners.
    pub fn width(&self) -> (r: u32)
        requires
            self.min.x <= self.max.x,
        ensures
            r == self.max.x - self.min.x,
    {
        self.max.x - self.min.x
    }

    /// Vertical distance between the corners.
    pub fn height(&self) -> (r: u32)
        requires
            self.min.y <= self.max.y,
        ensures
            r == self.max.y - self.min.y,
    {
        self.max.y - self.min.y
    }
}

/// Adding a vector and then subtracting it again gives back the start.
pub proof fn lemma_add_then_sub(a: Vec2, b: Vec2)
    requires
        a.x + b.x <= u32::MAX,
        a.y + b.y <= u32::MAX,
    ensures
        ({
            let s = Vec2 { x: (a.x + b.x) as u32, y: (a.y + b.y) as u32 };
            s.x - b.x == a.x && s.y - b.y == a.y
        }),
{
}

/// A contracted rectangle lies inside the original one, holds exactly the
/// points at least `delta` away from every edge, and is `2 * delta` narrower
/// and lower when the original was at least that wide and high.
pub proof fn lemma_contract_shrinks(b: Bounds, delta: int, x: int, y: int)
    requires
        b.can_contract(delta),
    ensures
        b.contracted(delta).holds(x, y) <==> (b.min.x + delta <= x <= b.max.x - delta
            && b.min.y + delta <= y <= b.max.y - delta),
        b.contracted(delta).holds(x, y) ==> b.holds(x, y),
        b.max.x - b.min.x >= 2 * delta ==> b.contracted(delta).max.x - b.contracted(delta).min.x
            == b.max.x - b.min.x - 2 * delta,
        b.max.y - b.min.y >= 2 * delta ==> b.contracted(delta).max.y - b.contracted(delta).min.y
            == b.max.y - b.min.y - 2 * delta,
{
}

} // verus!
