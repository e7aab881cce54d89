//! Integer rectangles in logical coordinates, and the two axes a split can run along.

use vstd::prelude::*;

verus! {

/// Largest magnitude a coordinate may have. Three coordinates within this
/// bound can always be added without leaving `i32`.
pub const COORD_MAX: i32 = 0x1fff_ffff;

/// Axis along which the children of a group are laid out.
///
/// `Horizontal` stacks the children top to bottom (the group is cut by
/// horizontal lines); `Vertical` places them side by side.
#[derive(Clone, Copy, Debug, PartialEq, Eq, Structural)]
pub enum Orientation {
    Horizontal,
    Vertical,
}

/// Direction of a focus-navigation request.
#[derive(Clone, Copy, Debug, PartialEq, Eq, Structural)]
pub enum FocusDirection {
    Left,
    Right,
    Up,
    Down,
    Out,
}

#[derive(Clone, Copy, Debug, PartialEq, Eq, Structural)]
pub struct Point {
    pub x: i32,
    pub y: i32,
}

#[derive(Clone, Copy, Debug, PartialEq, Eq, Structural)]
pub struct Size {
    pub w: i32,
    pub h: i32,
}

#[derive(Clone, Copy, Debug, PartialEq, Eq, Structural)]
pub struct Rectangle {
    pub loc: Point,
    pub size: Size,
}

impl Point {
    /// Both coordinates lie within `COORD_MAX` of the origin.
    pub open spec fn wf(self) -> bool {
        &&& -COORD_MAX <= self.x <= COORD_MAX
        &&& -COORD_MAX <= self.y <= COORD_MAX
    }

    /// The point moved by `by`, as mathematical integers.
    pub open spec fn offset(self, by: Point) -> (int, int) {
        (self.x + by.x, self.y + by.y)
    }

    pub fn new(x: i32, y: i32) -> (p: Point)
        ensures
            p == (Point { x, y }),
    {
        Point { x, y }
    }

    /// Component-wise sum of two bounded points.
    pub fn plus(self, by: Point) -> (p: Point)
        requires
            self.wf(),
            by.wf(),
        ensures
            (p.x as int, p.y as int) == self.offset(by),
    {
        Point { x: self.x + by.x, y: self.y + by.y }
    }
}

impl Rectangle {
    /// The size is not negative and all four edges lie within `COORD_MAX` of
    /// the origin.
    pub open spec fn wf(self) -> bool {
        &&& self.size.w >= 0
        &&& self.size.h >= 0
        &&& -COORD_MAX <= self.loc.x
        &&& -COORD_MAX <= self.loc.y
        &&& self.loc.x + self.size.w <= COORD_MAX
        &&& self.loc.y + self.size.h <= COORD_MAX
    }

    /// Extent of the rectangle along the axis of `orientation`: its height for
    /// a horizontal split, its width for a vertical one.
    pub open spec fn length_along(self, orientation: Orientation) -> int {
        match orientation {
            Orientation::Horizontal => self.size.h as int,
            Orientation::Vertical => self.size.w as int,
        }
    }

    /// `inner` covers no point outside `self`.
    pub open spec fn contains_rect(self, inner: Rectangle) -> bool {
        &&& self.loc.x <= inner.loc.x
        &&& self.loc.y <= inner.loc.y
        &&& inner.loc.x + inner.size.w <= self.loc.x + self.size.w
        &&& inner.loc.y + inner.size.h <= self.loc.y + self.size.h
    }

    /// The slice of `self` that starts `offset` units into the axis of
    /// `orientation` and is `length` units long; on the other axis it spans
    /// all of `self`.
    pub open spec fn slice(self, orientation: Orientation, offset: int, length: int) -> Rectangle {
        match orientation {
            Orientation::Horizontal => Rectangle {
                loc: Point { x: self.loc.x, y: (self.loc.y + offset) as i32 },
                size: Size { w: self.size.w, h: length as i32 },
            },
            Orientation::Vertical => Rectangle {
                loc: Point { x: (self.loc.x + offset) as i32, y: self.loc.y },
                size: Size { w: length as i32, h: self.size.h },
            },
        }
    }

    /// `self` with every edge moved inwards by `gap`.
    pub open spec fn shrunk(self, gap: int) -> Rectangle {
        Rectangle {
            loc: Point { x: (self.loc.x + gap) as i32, y: (self.loc.y + gap) as i32 },
            size: Size { w: (self.size.w - 2 * gap) as i32, h: (self.size.h - 2 * gap) as i32 },
        }
    }

    pub fn from_loc_and_size(loc: (i32, i32), size: (i32, i32)) -> (r: Rectangle)
        ensures
            r == (Rectangle { loc: Point { x: loc.0, y: loc.1 }, size: Size { w: size.0, h: size.1 } }),
    {
        Rectangle { loc: Point { x: loc.0, y: loc.1 }, size: Size { w: size.0, h: size.1 } }
    }

    /// Executable form of [`Rectangle::length_along`].
    pub fn length(&self, orientation: Orientation) -> (l: i32)
        ensures
            l == self.length_along(orientation),
    {
        match orientation {
            Orientation::Horizontal => self.size.h,
            Orientation::Vertical => self.size.w,
        }
    }

    /// Executable form of [`Rectangle::slice`], for a slice that lies inside
    /// `self`.
    pub fn cut(&self, orientation: Orientation, offset: i32, length: i32) -> (r: Rectangle)
        requires
            self.wf(),
            0 <= offset,
            0 <= length,
            offset + length <= self.length_along(orientation),
        ensures
            r == self.slice(orientation, offset as int, length as int),
            r.wf(),
            self.contains_rect(r),
    {
        match orientation {
            Orientation::Horizontal => Rectangle {
                loc: Point { x: self.loc.x, y: self.loc.y + offset },
                size: Size { w: self.size.w, h: length },
            },
            Orientation::Vertical => Rectangle {
                loc: Point { x: self.loc.x + offset, y: self.loc.y },
                size: Size { w: length, h: self.size.h },
            },
        }
    }
}

/// The rectangle every freshly created node carries until the next layout pass
/// assigns it a real one.
pub open spec fn placeholder() -> Rectangle {
    Rectangle { loc: Point { x: 0, y: 0 }, size: Size { w: 100, h: 100 } }
}

pub fn placeholder_rect() -> (r: Rectangle)
    ensures
        r == placeholder(),
        r.wf(),
{
    Rectangle { loc: Point { x: 0, y: 0 }, size: Size { w: 100, h: 100 } }
}

} // verus!
