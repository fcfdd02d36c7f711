//! Pure responsive geometry: `(area, threshold) -> two rectangles`, so every breakpoint is a
//! unit test.
use vstd::prelude::*;

verus! {

/// The tree's share of the width in the side-by-side layout, in percent.
pub const TREE_PCT: u16 = 40;

/// A terminal rectangle: its top-left cell and its size, in cells.
#[derive(Debug, Clone, Copy, PartialEq, Eq, Structural)]
pub struct Rect {
    pub x: u16,
    pub y: u16,
    pub width: u16,
    pub height: u16,
}

/// A rectangle whose right and bottom edges lie within `u16`.
pub open spec fn rect_ok(r: Rect) -> bool {
    r.x + r.width <= u16::MAX && r.y + r.height <= u16::MAX
}

impl Rect {
    /// A rectangle, with the width and height clamped so both edges stay within `u16`.
    pub fn new(x: u16, y: u16, width: u16, height: u16) -> (r: Rect)
        ensures
            r.x == x,
            r.y == y,
            r.width == if x + width <= u16::MAX {
                width as int
            } else {
                u16::MAX - x
            },
            r.height == if y + height <= u16::MAX {
                height as int
            } else {
                u16::MAX - y
            },
            rect_ok(r),
    {
        let w = if width <= u16::MAX - x {
            width
        } else {
            u16::MAX - x
        };
        let h = if height <= u16::MAX - y {
            height
        } else {
            u16::MAX - y
        };
        Rect { x, y, width: w, height: h }
    }
}

/// Which way the pane was divided.
#[derive(Debug, Clone, Copy, PartialEq, Eq, Structural)]
pub enum Orientation {
    /// Wide pane: tree left, diff right.
    SideBySide,
    /// Narrow pane: tree on top, diff below, each the full width.
    Stacked,
}

/// Where the two regions go for one frame.
#[derive(Debug, Clone, Copy, PartialEq, Eq, Structural)]
pub struct Geometry {
    pub tree: Rect,
    pub diff: Rect,
    pub orientation: Orientation,
}

/// The tree's width in a side-by-side split: `TREE_PCT` percent of `w`, but at least one column
/// and, from two columns on, leaving the diff at least one.
pub open spec fn tree_width(w: int) -> int {
    let pct = w * (TREE_PCT as int) / 100;
    let a = if pct < 1 {
        1
    } else {
        pct
    };
    let b = if a < w - 1 {
        a
    } else {
        w - 1
    };
    if b < 1 {
        1
    } else {
        b
    }
}

/// The division of `area`: nothing for an empty area; side by side (the tree taking
/// [`TREE_PCT`] of the width) from `threshold` columns on; else stacked, the tree taking the
/// larger half of the height.
pub open spec fn geometry_spec(area: Rect, threshold: u16) -> Geometry {
    if area.width == 0 || area.height == 0 {
        Geometry {
            tree: Rect { x: area.x, y: area.y, width: 0, height: 0 },
            diff: Rect { x: area.x, y: area.y, width: 0, height: 0 },
            orientation: Orientation::Stacked,
        }
    } else if area.width >= threshold {
        let tw = tree_width(area.width as int);
        Geometry {
            tree: Rect { x: area.x, y: area.y, width: tw as u16, height: area.height },
            diff: Rect {
                x: (area.x + tw) as u16,
                y: area.y,
                width: (area.width - tw) as u16,
                height: area.height,
            },
            orientation: Orientation::SideBySide,
        }
    } else {
        let th = (area.height + 1) / 2;
        Geometry {
            tree: Rect { x: area.x, y: area.y, width: area.width, height: th as u16 },
            diff: Rect {
                x: area.x,
                y: (area.y + th) as u16,
                width: area.width,
                height: (area.height - th) as u16,
            },
            orientation: Orientation::Stacked,
        }
    }
}

/// The two regions tile `area` exactly: no gap, no overlap, nothing outside it.
pub open spec fn tiles(g: Geometry, area: Rect) -> bool {
    &&& g.tree.x == area.x
    &&& g.tree.y == area.y
    &&& match g.orientation {
        Orientation::SideBySide => {
            &&& g.tree.height == area.height
            &&& g.diff.height == area.height
            &&& g.diff.y == area.y
            &&& g.diff.x == g.tree.x + g.tree.width
            &&& g.tree.width + g.diff.width == area.width
        },
        Orientation::Stacked => {
            &&& g.tree.width == area.width
            &&& g.diff.width == area.width
            &&& g.diff.x == area.x
            &&& g.diff.y == g.tree.y + g.tree.height
            &&& g.tree.height + g.diff.height == area.height
        },
    }
}

/// Divide `area` into the tree and diff regions.
///
/// At or above `split_threshold_cols` the pane splits left/right with the tree taking
/// [`TREE_PCT`] of the width; below it the pane stacks, the tree taking the ceiling half of the
/// height. The two regions always tile `area` exactly, a side-by-side split leaves each column
/// at least one cell from two columns on, and an empty area gives empty regions.
pub fn geometry(area: Rect, split_threshold_cols: u16) -> (g: Geometry)
    requires
        rect_ok(area),
    ensures
        g == geometry_spec(area, split_threshold_cols),
        area.width > 0 && area.height > 0 ==> tiles(g, area),
        g.orientation == Orientation::SideBySide && area.width >= 2 ==> g.tree.width >= 1 && g.diff.width >= 1,
        area.width == 0 || area.height == 0 ==> g.tree.width == 0 && g.tree.height == 0 && g.diff.width == 0
            && g.diff.height == 0,
{
    if area.width == 0 || area.height == 0 {
        return Geometry {
            tree: Rect { x: area.x, y: area.y, width: 0, height: 0 },
            diff: Rect { x: area.x, y: area.y, width: 0, height: 0 },
            orientation: Orientation::Stacked,
        };
    }
    if area.width >= split_threshold_cols {
        let pct = ((area.width as u32) * (TREE_PCT as u32)) / 100;
        assert(pct <= area.width) by (nonlinear_arith)
            requires
                pct == (area.width as u32) * 40 / 100,
        ;
        let a: u16 = if pct < 1 {
            1
        } else {
            pct as u16
        };
        let b: u16 = if a < area.width - 1 {
            a
        } else {
            area.width - 1
        };
        let tw: u16 = if b < 1 {
            1
        } else {
            b
        };
        assert(tw == tree_width(area.width as int));
        return Geometry {
            tree: Rect { x: area.x, y: area.y, width: tw, height: area.height },
            diff: Rect { x: area.x + tw, y: area.y, width: area.width - tw, height: area.height },
            orientation: Orientation::SideBySide,
        };
    }
    let th: u16 = area.height / 2 + area.height % 2;
    assert(th == (area.height + 1) / 2);
    Geometry {
        tree: Rect { x: area.x, y: area.y, width: area.width, height: th },
        diff: Rect { x: area.x, y: area.y + th, width: area.width, height: area.height - th },
        orientation: Orientation::Stacked,
    }
}

} // verus!
