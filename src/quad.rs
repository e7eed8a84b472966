use vstd::prelude::*;

use crate::region::Region;

verus! {

/// A point of the plane with integer coordinates.
#[derive(Clone, Copy, Debug, PartialEq, Eq, Structural)]
pub struct Vec2 {
    pub x: u32,
    pub y: u32,
}

/// An axis-aligned rectangle of the integer plane, holding the points with
/// `min_x <= x < max_x` and `min_y <= y < max_y`.
#[derive(Clone, Copy, Debug, PartialEq, Eq, Structural)]
pub struct QuadTreeRegion {
    pub min_x: u32,
    pub min_y: u32,
    pub max_x: u32,
    pub max_y: u32,
}

/// The middle of `[a, b)`, rounded down; `a` when the range is empty.
pub open spec fn mid(a: u32, b: u32) -> u32 {
    if b > a {
        (a + (b - a) / 2) as u32
    } else {
        a
    }
}

/// How many times `[a, b)` can still be halved into smaller ranges.
pub open spec fn span(a: u32, b: u32) -> nat {
    if b > a + 1 {
        (b - a - 1) as nat
    } else {
        0
    }
}

fn midpoint(a: u32, b: u32) -> (r: u32)
    ensures
        r == mid(a, b),
{
    if b > a {
        a + (b - a) / 2
    } else {
        a
    }
}

proof fn lemma_mid(a: u32, b: u32)
    ensures
        a <= b ==> a <= mid(a, b) <= b,
        span(a, mid(a, b)) <= span(a, b),
        span(mid(a, b), b) <= span(a, b),
        span(a, b) > 0 ==> span(a, mid(a, b)) < span(a, b) && span(mid(a, b), b) < span(a, b),
{
}

impl QuadTreeRegion {
    /// The rectangle with corner `(x, y)`, `width` and `height`.
    pub fn new(x: u32, y: u32, width: u32, height: u32) -> (r: QuadTreeRegion)
        requires
            x + width <= u32::MAX,
            y + height <= u32::MAX,
        ensures
            r.min_x == x && r.min_y == y && r.max_x == x + width && r.max_y == y + height,
    {
        QuadTreeRegion { min_x: x, min_y: y, max_x: x + width, max_y: y + height }
    }

    /// The square with corner `(x, y)` and side `wh`.
    pub fn square(x: u32, y: u32, wh: u32) -> (r: QuadTreeRegion)
        requires
            x + wh <= u32::MAX,
            y + wh <= u32::MAX,
        ensures
            r.min_x == x && r.min_y == y && r.max_x == x + wh && r.max_y == y + wh,
    {
        QuadTreeRegion::new(x, y, wh, wh)
    }
}

impl Region<Vec2> for QuadTreeRegion {
    open spec fn spec_contains(&self, p: Vec2) -> bool {
        self.min_x <= p.x < self.max_x && self.min_y <= p.y < self.max_y
    }

    open spec fn spec_overlaps(&self, other: QuadTreeRegion) -> bool {
        self.min_x < other.max_x && other.min_x < self.max_x && self.min_y < other.max_y
            && other.min_y < self.max_y
    }

    open spec fn spec_split(&self) -> Seq<QuadTreeRegion> {
        let mx = mid(self.min_x, self.max_x);
        let my = mid(self.min_y, self.max_y);
        seq![
            QuadTreeRegion { min_x: self.min_x, min_y: self.min_y, max_x: mx, max_y: my },
            QuadTreeRegion { min_x: self.min_x, min_y: my, max_x: mx, max_y: self.max_y },
            QuadTreeRegion { min_x: mx, min_y: self.min_y, max_x: self.max_x, max_y: my },
            QuadTreeRegion { min_x: mx, min_y: my, max_x: self.max_x, max_y: self.max_y },
        ]
    }

    open spec fn extent(&self) -> nat {
        span(self.min_x, self.max_x) + span(self.min_y, self.max_y)
    }

    proof fn lemma_split_covers(&self) {
        lemma_mid(self.min_x, self.max_x);
        lemma_mid(self.min_y, self.max_y);
        let s = self.spec_split();
        assert forall|p: Vec2| #[trigger] self.spec_contains(p) implies exists|i: int|
            0 <= i < s.len() && s[i].spec_contains(p) by {
            let mx = mid(self.min_x, self.max_x);
            let my = mid(self.min_y, self.max_y);
            let i: int = if p.x < mx {
                if p.y < my {
                    0
                } else {
                    1
                }
            } else if p.y < my {
                2
            } else {
                3
            };
            assert(s[i].spec_contains(p));
        }
    }

    proof fn lemma_overlaps_sound(&self, other: &QuadTreeRegion, p: Vec2) {
    }

    fn contains(&self, p: &Vec2) -> (r: bool) {
        self.min_x <= p.x && p.x < self.max_x && self.min_y <= p.y && p.y < self.max_y
    }

    fn split(&self) -> (r: Vec<QuadTreeRegion>) {
        let mx = midpoint(self.min_x, self.max_x);
        let my = midpoint(self.min_y, self.max_y);
        let r = vec![
            QuadTreeRegion { min_x: self.min_x, min_y: self.min_y, max_x: mx, max_y: my },
            QuadTreeRegion { min_x: self.min_x, min_y: my, max_x: mx, max_y: self.max_y },
            QuadTreeRegion { min_x: mx, min_y: self.min_y, max_x: self.max_x, max_y: my },
            QuadTreeRegion { min_x: mx, min_y: my, max_x: self.max_x, max_y: self.max_y },
        ];
        assert(r@ =~= self.spec_split());
        r
    }

    fn overlaps(&self, other: &QuadTreeRegion) -> (r: bool) {
        self.min_x < other.max_x && other.min_x < self.max_x && self.min_y < other.max_y
            && other.min_y < self.max_y
    }

    fn divisible(&self) -> (r: bool) {
        (self.max_x > self.min_x && self.max_x - self.min_x >= 2) || (self.max_y > self.min_y
            && self.max_y - self.min_y >= 2)
    }
}

} // verus!
