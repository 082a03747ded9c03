//! Axis-aligned rectangles on the integer grid: containment, overlap and
//! the split into four quadrants.
use vstd::prelude::*;

verus! {

/// A point `(x, y)`; `y` grows downwards, so `(x, y)` of a rectangle is its
/// top-left corner.
pub type Position = (i32, i32);

/// The rectangle with top-left corner `(x, y)`, width `w` and height `h`.
/// It holds the points `x <= px < x + w`, `y <= py < y + h`.
#[derive(Clone, Copy, Debug, PartialEq, Eq, Structural)]
pub struct Rect {
    pub x: i32,
    pub y: i32,
    pub w: i32,
    pub h: i32,
}

/// Index of the top-left quadrant.
pub const TOP_LEFT: usize = 0;
/// Index of the top-right quadrant.
pub const TOP_RIGHT: usize = 1;
/// Index of the bottom-left quadrant.
pub const BOTTOM_LEFT: usize = 2;
/// Index of the bottom-right quadrant.
pub const BOTTOM_RIGHT: usize = 3;

impl Rect {
    /// Width and height are not negative, and the right and bottom edges
    /// stay within `i32`.
    pub open spec fn wf(self) -> bool {
        &&& 0 <= self.w
        &&& 0 <= self.h
        &&& self.x + self.w <= i32::MAX
        &&& self.y + self.h <= i32::MAX
    }

    pub open spec fn contains_spec(self, p: Position) -> bool {
        &&& self.x <= p.0 < self.x + self.w
        &&& self.y <= p.1 < self.y + self.h
    }

    pub open spec fn intersects_spec(self, o: Rect) -> bool {
        &&& self.x <= o.x + o.w
        &&& o.x <= self.x + self.w
        &&& self.y <= o.y + o.h
        &&& o.y <= self.y + self.h
    }

    pub open spec fn area(self) -> int {
        self.w * self.h
    }

    /// Width of the left column of quadrants; the right one takes the rest.
    pub open spec fn half_w(self) -> int {
        self.w / 2
    }

    /// Height of the top row of quadrants; the bottom one takes the rest.
    pub open spec fn half_h(self) -> int {
        self.h / 2
    }

    /// Quadrant `i` (top-left, top-right, bottom-left, bottom-right).
    pub open spec fn quadrant_rect(self, i: int) -> Rect {
        let right = i == 1 || i == 3;
        let bottom = i == 2 || i == 3;
        Rect {
            x: (if right { self.x + self.half_w() } else { self.x as int }) as i32,
            y: (if bottom { self.y + self.half_h() } else { self.y as int }) as i32,
            w: (if right { self.w - self.half_w() } else { self.half_w() }) as i32,
            h: (if bottom { self.h - self.half_h() } else { self.half_h() }) as i32,
        }
    }

    /// Which quadrant a point of the rectangle falls in.
    pub open spec fn quadrant_of(self, p: Position) -> int {
        (if p.0 >= self.x + self.half_w() { 1int } else { 0int }) + (if p.1 >= self.y
            + self.half_h() { 2int } else { 0int })
    }

    pub fn new(x: i32, y: i32, w: i32, h: i32) -> (r: Rect)
        requires
            0 <= w,
            0 <= h,
            x + w <= i32::MAX,
            y + h <= i32::MAX,
        ensures
            r == (Rect { x, y, w, h }),
            r.wf(),
    {
        Rect { x, y, w, h }
    }

    /// Whether `p` lies in the rectangle: left and top edges included,
    /// right and bottom edges excluded.
    pub fn contains(&self, p: Position) -> (r: bool)
        ensures
            r == self.contains_spec(p),
    {
        let px = p.0 as i64;
        let py = p.1 as i64;
        self.x as i64 <= px && px < self.x as i64 + self.w as i64 && self.y as i64 <= py && py
            < self.y as i64 + self.h as i64
    }

    /// Whether the two rectangles overlap or touch on both axes, edges
    /// included: the closed overlap test of axis-aligned boxes. Rectangles
    /// that only share an edge or a corner intersect, and so does a
    /// rectangle of no width with one that covers it.
    pub fn intersects(&self, other: &Rect) -> (r: bool)
        ensures
            r == self.intersects_spec(*other),
    {
        self.x as i64 <= other.x as i64 + other.w as i64 && other.x as i64 <= self.x as i64
            + self.w as i64 && self.y as i64 <= other.y as i64 + other.h as i64 && other.y as i64
            <= self.y as i64 + self.h as i64
    }

    /// The four quadrants in the order top-left, top-right, bottom-left,
    /// bottom-right. The left column is `w / 2` wide and the top row
    /// `h / 2` high; the others take the remainder, so that the four tile
    /// the rectangle exactly.
    pub fn split(&self) -> (r: [Rect; 4])
        requires
            self.wf(),
        ensures
            forall|i: int| 0 <= i < 4 ==> #[trigger] r@[i] == self.quadrant_rect(i),
    {
        let hw = self.w / 2;
        let hh = self.h / 2;
        [
            Rect { x: self.x, y: self.y, w: hw, h: hh },
            Rect { x: self.x + hw, y: self.y, w: self.w - hw, h: hh },
            Rect { x: self.x, y: self.y + hh, w: hw, h: self.h - hh },
            Rect { x: self.x + hw, y: self.y + hh, w: self.w - hw, h: self.h - hh },
        ]
    }

    /// The index of the quadrant that holds `p`.
    pub fn quadrant(&self, p: Position) -> (r: usize)
        requires
            self.wf(),
        ensures
            r == self.quadrant_of(p),
            r < 4,
    {
        let right = p.0 as i64 >= self.x as i64 + (self.w / 2) as i64;
        let bottom = p.1 as i64 >= self.y as i64 + (self.h / 2) as i64;
        if right && bottom {
            BOTTOM_RIGHT
        } else if bottom {
            BOTTOM_LEFT
        } else if right {
            TOP_RIGHT
        } else {
            TOP_LEFT
        }
    }
}

/// The cell of `p` that `k` splits of `r` give: `r` itself for `k == 0`,
/// else the cell of `p`, `k - 1` splits down, in the quadrant of `r` that
/// holds `p`.
pub open spec fn cell_at(r: Rect, p: Position, k: nat) -> Rect
    decreases k,
{
    if k == 0 {
        r
    } else {
        cell_at(r.quadrant_rect(r.quadrant_of(p)), p, (k - 1) as nat)
    }
}

/// A point's cell is well formed, holds the point, and lies inside the
/// rectangle it was cut from.
pub proof fn lemma_cell_inside(r: Rect, p: Position, k: nat)
    requires
        r.wf(),
        r.contains_spec(p),
    ensures
        cell_at(r, p, k).wf(),
        cell_at(r, p, k).contains_spec(p),
        forall|x: Position| #[trigger] cell_at(r, p, k).contains_spec(x) ==> r.contains_spec(x),
    decreases k,
{
    if k > 0 {
        let q = r.quadrant_of(p);
        lemma_quadrants_partition(r, p);
        lemma_quadrant_inside(r, q, p);
        lemma_cell_inside(r.quadrant_rect(q), p, (k - 1) as nat);
        assert forall|x: Position| #[trigger]
            cell_at(r, p, k).contains_spec(x) implies r.contains_spec(x) by {
            assert(r.quadrant_rect(q).contains_spec(x));
            lemma_quadrant_inside(r, q, x);
        }
    }
}

/// Two points of a rectangle with one cell at least one split down lie in
/// the same quadrant.
pub proof fn lemma_same_cell_same_quadrant(r: Rect, a: Position, b: Position, k: nat)
    requires
        r.wf(),
        r.contains_spec(a),
        r.contains_spec(b),
        k >= 1,
        cell_at(r, a, k) == cell_at(r, b, k),
    ensures
        r.quadrant_of(a) == r.quadrant_of(b),
{
    let qb = r.quadrant_of(b);
    lemma_quadrants_partition(r, a);
    lemma_quadrants_partition(r, b);
    lemma_quadrant_inside(r, r.quadrant_of(a), a);
    lemma_quadrant_inside(r, qb, b);
    lemma_cell_inside(r.quadrant_rect(r.quadrant_of(a)), a, (k - 1) as nat);
    lemma_cell_inside(r.quadrant_rect(qb), b, (k - 1) as nat);
    assert(cell_at(r, b, k).contains_spec(a));
    assert(r.quadrant_rect(qb).contains_spec(a));
}

/// Each quadrant of a well-formed rectangle is well formed and lies inside it.
pub proof fn lemma_quadrant_inside(r: Rect, i: int, p: Position)
    requires
        r.wf(),
        0 <= i < 4,
    ensures
        r.quadrant_rect(i).wf(),
        r.quadrant_rect(i).contains_spec(p) ==> r.contains_spec(p),
{
}

/// The four quadrants tile the rectangle: the left column and the right
/// column are side by side and together as wide as the rectangle, the top
/// row and the bottom row are stacked and together as high, and the four
/// areas add up to the rectangle's area, so that nothing overlaps.
pub proof fn lemma_split_tiles(r: Rect)
    requires
        r.wf(),
    ensures
        r.quadrant_rect(0).x == r.x && r.quadrant_rect(0).y == r.y,
        r.quadrant_rect(1).x == r.x + r.quadrant_rect(0).w,
        r.quadrant_rect(1).y == r.y,
        r.quadrant_rect(2).x == r.x,
        r.quadrant_rect(2).y == r.y + r.quadrant_rect(0).h,
        r.quadrant_rect(3).x == r.quadrant_rect(1).x,
        r.quadrant_rect(3).y == r.quadrant_rect(2).y,
        r.quadrant_rect(0).w + r.quadrant_rect(1).w == r.w,
        r.quadrant_rect(2).w + r.quadrant_rect(3).w == r.w,
        r.quadrant_rect(0).h + r.quadrant_rect(2).h == r.h,
        r.quadrant_rect(1).h + r.quadrant_rect(3).h == r.h,
        r.quadrant_rect(0).w == r.quadrant_rect(2).w,
        r.quadrant_rect(0).h == r.quadrant_rect(1).h,
        r.quadrant_rect(0).area() + r.quadrant_rect(1).area() + r.quadrant_rect(2).area()
            + r.quadrant_rect(3).area() == r.area(),
        forall|p: Position|
            r.contains_spec(p) <==> (exists|i: int|
                0 <= i < 4 && #[trigger] r.quadrant_rect(i).contains_spec(p)),
        forall|i: int, j: int, p: Position|
            0 <= i < 4 && 0 <= j < 4 && i != j && #[trigger] r.quadrant_rect(i).contains_spec(p)
                ==> !#[trigger] r.quadrant_rect(j).contains_spec(p),
{
    let a = r.half_w();
    let b = r.w - a;
    let c = r.half_h();
    let d = r.h - c;
    assert(a * c + b * c + a * d + b * d == (a + b) * (c + d)) by (nonlinear_arith);
    assert forall|p: Position| r.contains_spec(p) implies (exists|i: int|
        0 <= i < 4 && #[trigger] r.quadrant_rect(i).contains_spec(p)) by {
        lemma_quadrants_partition(r, p);
    }
}

/// Every point of a rectangle lies in exactly one of its quadrants, the one
/// that `quadrant_of` names, and a point outside it lies in none. Points on
/// the inner edges go to the right and to the bottom.
pub proof fn lemma_quadrants_partition(r: Rect, p: Position)
    requires
        r.wf(),
    ensures
        forall|i: int|
            0 <= i < 4 ==> (#[trigger] r.quadrant_rect(i).contains_spec(p) <==> (r.contains_spec(
                p) && i == r.quadrant_of(p))),
        r.contains_spec(p) ==> 0 <= r.quadrant_of(p) < 4 && r.quadrant_rect(
            r.quadrant_of(p),
        ).contains_spec(p),
{
}

/// A point that lies in a rectangle that does not meet a region does not
/// lie in that region.
pub proof fn lemma_disjoint_excludes(a: Rect, b: Rect, p: Position)
    requires
        a.contains_spec(p),
        !a.intersects_spec(b),
    ensures
        !b.contains_spec(p),
{
}

} // verus!
