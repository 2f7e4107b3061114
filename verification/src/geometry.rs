//! Axis-aligned rectangles on the atlas grid.

use vstd::prelude::*;

verus! {

/// A rectangular region of the atlas, given by its top-left corner, its size,
/// and its bottom-right corner (exclusive).
pub struct Region {
    pub x: u32,
    pub y: u32,
    pub w: u32,
    pub h: u32,
    /// Bottom-right x
    pub bx: u32,
    /// Bottom-right y
    pub by: u32,
}

/// The region spanning `w` by `h` cells from `(x, y)`; its corner fields are
/// `x + w` and `y + h`, taken as `u32`.
pub open spec fn region_spec(x: int, y: int, w: int, h: int) -> Region {
    Region {
        x: x as u32,
        y: y as u32,
        w: w as u32,
        h: h as u32,
        bx: (x + w) as u32,
        by: (y + h) as u32,
    }
}

/// A rectangle in mathematical integers: origin `(x, y)`, size `w` by `h`.
pub struct Rect {
    pub x: int,
    pub y: int,
    pub w: int,
    pub h: int,
}

/// `a` lies inside `b`.
pub open spec fn rect_within(a: Rect, b: Rect) -> bool {
    &&& b.x <= a.x
    &&& a.x + a.w <= b.x + b.w
    &&& b.y <= a.y
    &&& a.y + a.h <= b.y + b.h
}

/// `a` and `b` are separated by a vertical or a horizontal line, so they
/// share no cell.
pub open spec fn rects_apart(a: Rect, b: Rect) -> bool {
    ||| a.x + a.w <= b.x
    ||| b.x + b.w <= a.x
    ||| a.y + a.h <= b.y
    ||| b.y + b.h <= a.y
}

/// The cell `(px, py)` lies inside `r`.
pub open spec fn rect_contains(r: Rect, px: int, py: int) -> bool {
    r.x <= px < r.x + r.w && r.y <= py < r.y + r.h
}

/// A rectangle inside one of two separated rectangles is separated from the other.
pub proof fn lemma_within_apart(a: Rect, b: Rect, c: Rect)
    requires
        rect_within(a, b),
        rects_apart(b, c),
    ensures
        rects_apart(a, c),
{
}

/// Separated rectangles share no cell.
pub proof fn lemma_apart_no_common_cell(a: Rect, b: Rect, px: int, py: int)
    requires
        rects_apart(a, b),
        rect_contains(a, px, py),
    ensures
        !rect_contains(b, px, py),
{
}

impl Region {
    /// The rectangle that the region covers.
    pub open spec fn rect(&self) -> Rect {
        Rect { x: self.x as int, y: self.y as int, w: self.w as int, h: self.h as int }
    }

    /// The corner fields agree with the origin and the size.
    pub open spec fn wf(&self) -> bool {
        &&& self.bx == self.x + self.w
        &&& self.by == self.y + self.h
    }

    /// The area of the region, as a mathematical integer.
    pub open spec fn area_spec(&self) -> int {
        self.w * self.h
    }

    /// Whether an item of the given size fits inside the region without rotation.
    pub open spec fn can_fit_spec(&self, other_w: int, other_h: int) -> bool {
        self.w >= other_w && self.h >= other_h
    }

    pub fn new(x: u32, y: u32, w: u32, h: u32) -> (r: Self)
        requires
            x + w <= u32::MAX,
            y + h <= u32::MAX,
        ensures
            r == region_spec(x as int, y as int, w as int, h as int),
            r.wf(),
    {
        return Region { x, y, w, h, bx: x + w, by: y + h };
    }

    pub fn from_coords(x1: u32, y1: u32, x2: u32, y2: u32) -> (r: Self)
        requires
            x1 <= x2,
            y1 <= y2,
        ensures
            r == region_spec(x1 as int, y1 as int, x2 - x1, y2 - y1),
            r.wf(),
    {
        return Region { x: x1, y: y1, w: x2 - x1, h: y2 - y1, bx: x2, by: y2 };
    }

    /// Area can get super inflated, so it is computed as a `u64`.
    pub fn area(&self) -> (a: u64)
        ensures
            a == self.area_spec(),
            a == self.w * self.h,
    {
        proof {
            vstd::arithmetic::mul::lemma_mul_upper_bound(
                self.w as int, u32::MAX as int, self.h as int, u32::MAX as int);
        }
        return self.w as u64 * self.h as u64;
    }

    pub fn can_fit(&self, other_w: u32, other_h: u32) -> (b: bool)
        ensures
            b == self.can_fit_spec(other_w as int, other_h as int),
            b == (self.w >= other_w && self.h >= other_h),
    {
        return self.w >= other_w && self.h >= other_h;
    }
}

} // verus!
