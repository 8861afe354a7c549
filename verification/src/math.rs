//! Integer vectors and rectangles.

use vstd::prelude::*;

verus! {

/// A pair of `i32`: the index of a chunk in the grid of chunks, or a position
/// in whole world units.
#[derive(Clone, Copy, Debug, PartialEq, Eq, Structural, Hash)]
pub struct IVec2 {
    pub x: i32,
    pub y: i32,
}

/// A pair of `u32`: the index of a tile inside its chunk.
#[derive(Clone, Copy, Debug, PartialEq, Eq, Structural, Hash)]
pub struct UVec2 {
    pub x: u32,
    pub y: u32,
}

/// A pair of `i64`: a position or an extent in world units, wide enough for
/// the corner of any chunk.
#[derive(Clone, Copy, Debug, PartialEq, Eq, Structural, Hash)]
pub struct I64Vec2 {
    pub x: i64,
    pub y: i64,
}

/// An axis-aligned rectangle in world units. Both corners belong to it; it is
/// empty where `min` exceeds `max` on either axis.
#[derive(Clone, Copy, Debug, PartialEq, Eq, Structural, Hash)]
pub struct Rect {
    pub min: I64Vec2,
    pub max: I64Vec2,
}

impl IVec2 {
    pub fn new(x: i32, y: i32) -> (v: IVec2)
        ensures
            v == (IVec2 { x, y }),
    {
        IVec2 { x, y }
    }
}

impl UVec2 {
    pub fn new(x: u32, y: u32) -> (v: UVec2)
        ensures
            v == (UVec2 { x, y }),
    {
        UVec2 { x, y }
    }
}

impl I64Vec2 {
    pub fn new(x: i64, y: i64) -> (v: I64Vec2)
        ensures
            v == (I64Vec2 { x, y }),
    {
        I64Vec2 { x, y }
    }

    /// The vector with both components equal to `v`.
    pub fn splat(v: i64) -> (r: I64Vec2)
        ensures
            r == (I64Vec2 { x: v, y: v }),
    {
        I64Vec2 { x: v, y: v }
    }
}

impl Rect {
    /// Whether the point `p` lies in the rectangle, borders included.
    pub open spec fn contains(self, p: I64Vec2) -> bool {
        &&& self.min.x <= p.x <= self.max.x
        &&& self.min.y <= p.y <= self.max.y
    }

    /// The rectangle whose centre is `center` and which reaches `half` units
    /// from it in each of the four directions.
    pub open spec fn around(center: IVec2, half: int) -> Rect
        recommends
            0 <= half <= 0x4000_0000_0000,
    {
        Rect {
            min: I64Vec2 { x: (center.x - half) as i64, y: (center.y - half) as i64 },
            max: I64Vec2 { x: (center.x + half) as i64, y: (center.y + half) as i64 },
        }
    }

    /// Builds the rectangle around `center` that reaches `half` units to each side.
    pub fn from_center_half_size(center: IVec2, half: u32) -> (r: Rect)
        ensures
            r == Rect::around(center, half as int),
            forall|p: I64Vec2|
                r.contains(p) <==> (center.x - half <= p.x <= center.x + half && center.y - half
                    <= p.y <= center.y + half),
    {
        let h: i64 = half as i64;
        let cx: i64 = center.x as i64;
        let cy: i64 = center.y as i64;
        Rect {
            min: I64Vec2 { x: cx - h, y: cy - h },
            max: I64Vec2 { x: cx + h, y: cy + h },
        }
    }
}

/// The quotient of `a` by the positive `d`, rounded towards minus infinity.
pub open spec fn floor_div(a: int, d: int) -> int
    recommends
        d > 0,
{
    a / d
}

/// The remainder that goes with `floor_div`: between 0 and `d - 1`.
pub open spec fn floor_mod(a: int, d: int) -> int
    recommends
        d > 0,
{
    a % d
}

/// Division that rounds towards minus infinity, where `/` on a negative
/// `i64` would round towards zero.
pub fn div_floor(a: i64, d: i64) -> (q: i64)
    requires
        d > 0,
    ensures
        q == floor_div(a as int, d as int),
        q * d <= a < q * d + d,
{
    proof {
        lemma_floor_div(a as int, d as int);
    }
    if a >= 0 {
        a / d
    } else {
        let m: i64 = -(a + 1);
        let t: i64 = m / d;
        proof {
            lemma_floor_div(m as int, d as int);
            assert((-(t as int) - 1) * d == -(t * d) - d) by (nonlinear_arith);
            lemma_floor_unique(a as int, d as int, -(t as int) - 1);
        }
        -t - 1
    }
}

/// `floor_div` is the one `q` with `q * d <= a < q * d + d`.
pub proof fn lemma_floor_div(a: int, d: int)
    requires
        d > 0,
    ensures
        floor_div(a, d) * d <= a < floor_div(a, d) * d + d,
        0 <= floor_mod(a, d) < d,
        a == d * floor_div(a, d) + floor_mod(a, d),
        a == floor_div(a, d) * d + floor_mod(a, d),
{
    vstd::arithmetic::div_mod::lemma_fundamental_div_mod(a, d);
    vstd::arithmetic::div_mod::lemma_mod_bound(a, d);
    assert(d * (a / d) == (a / d) * d) by (nonlinear_arith);
}

/// Any `q` with `q * d <= a < q * d + d` is the floored quotient.
pub proof fn lemma_floor_unique(a: int, d: int, q: int)
    requires
        d > 0,
        q * d <= a < q * d + d,
    ensures
        floor_div(a, d) == q,
{
    lemma_floor_div(a, d);
    let f = floor_div(a, d);
    assert(f == q) by (nonlinear_arith)
        requires
            d > 0,
            q * d <= a < q * d + d,
            f * d <= a < f * d + d,
    ;
}

} // verus!
