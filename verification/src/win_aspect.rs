//! Aspect-locked interactive resize for the detached video window on Windows: `WM_SIZING`
//! carries the rectangle the user is dragging out, and whatever the window writes back is what
//! the drag shows. The picture size itself is worked out in floating point with the window; this
//! is which side leads and how the rectangle is bent to the size chosen.

use vstd::prelude::*;

verus! {

/// The `WM_SIZING` edge codes.
pub const WMSZ_LEFT: u32 = 1;
pub const WMSZ_RIGHT: u32 = 2;
pub const WMSZ_TOP: u32 = 3;
pub const WMSZ_TOPLEFT: u32 = 4;
pub const WMSZ_TOPRIGHT: u32 = 5;
pub const WMSZ_BOTTOM: u32 = 6;
pub const WMSZ_BOTTOMLEFT: u32 = 7;
pub const WMSZ_BOTTOMRIGHT: u32 = 8;

/// A window rectangle in screen px.
#[derive(Debug, Clone, Copy, PartialEq, Eq, Structural)]
pub struct DragRect {
    pub left: i32,
    pub top: i32,
    pub right: i32,
    pub bottom: i32,
}

/// Which measure of the dragged rectangle sizes the picture.
#[derive(Debug, Clone, Copy, PartialEq, Eq, Structural)]
pub enum Lead {
    /// A top or bottom edge: the height leads.
    Height,
    /// A left or right edge: the width leads.
    Width,
    /// A corner drags both, and the one that reaches further wins.
    Further,
}

pub open spec fn spec_drag_lead(edge: u32) -> Lead {
    if edge == WMSZ_TOP || edge == WMSZ_BOTTOM {
        Lead::Height
    } else if edge == WMSZ_LEFT || edge == WMSZ_RIGHT {
        Lead::Width
    } else {
        Lead::Further
    }
}

/// The side being dragged leads.
pub fn drag_lead(edge: u32) -> (l: Lead)
    ensures
        l == spec_drag_lead(edge),
{
    if edge == WMSZ_TOP || edge == WMSZ_BOTTOM {
        Lead::Height
    } else if edge == WMSZ_LEFT || edge == WMSZ_RIGHT {
        Lead::Width
    } else {
        Lead::Further
    }
}

/// Which measure leads, for every edge code: dragging the left or the right edge makes the width
/// lead, the top or the bottom edge the height, and only a corner (or a code that names no single
/// side) compares both — so the two side edges of an axis always behave alike.
pub proof fn law_dragged_side_leads(edge: u32)
    ensures
        edge == WMSZ_LEFT || edge == WMSZ_RIGHT ==> spec_drag_lead(edge) == Lead::Width,
        edge == WMSZ_TOP || edge == WMSZ_BOTTOM ==> spec_drag_lead(edge) == Lead::Height,
        !(WMSZ_LEFT <= edge <= WMSZ_TOP) && edge != WMSZ_BOTTOM ==> spec_drag_lead(edge) == Lead::Further,
        spec_drag_lead(WMSZ_LEFT) == spec_drag_lead(WMSZ_RIGHT),
        spec_drag_lead(WMSZ_TOP) == spec_drag_lead(WMSZ_BOTTOM),
{
}

/// The drag holds the right side: the left edge (or a left corner) is being dragged.
pub open spec fn moves_left(edge: u32) -> bool {
    edge == WMSZ_LEFT || edge == WMSZ_TOPLEFT || edge == WMSZ_BOTTOMLEFT
}

/// The drag holds the bottom side: the top edge (or a top corner) is being dragged.
pub open spec fn moves_top(edge: u32) -> bool {
    edge == WMSZ_TOP || edge == WMSZ_TOPLEFT || edge == WMSZ_TOPRIGHT
}

/// The rectangle bent to `width × height`, growing away from the corner the drag is not holding.
pub open spec fn spec_bend_rect(r: DragRect, edge: u32, width: int, height: int) -> DragRect {
    DragRect {
        left: if moves_left(edge) {
            (r.right - width) as i32
        } else {
            r.left
        },
        right: if moves_left(edge) {
            r.right
        } else {
            (r.left + width) as i32
        },
        top: if moves_top(edge) {
            (r.bottom - height) as i32
        } else {
            r.top
        },
        bottom: if moves_top(edge) {
            r.bottom
        } else {
            (r.top + height) as i32
        },
    }
}

/// The coordinates the bend produces fit in `i32`.
pub open spec fn bend_fits(r: DragRect, edge: u32, width: int, height: int) -> bool {
    &&& moves_left(edge) ==> i32::MIN <= r.right - width <= i32::MAX
    &&& !moves_left(edge) ==> i32::MIN <= r.left + width <= i32::MAX
    &&& moves_top(edge) ==> i32::MIN <= r.bottom - height <= i32::MAX
    &&& !moves_top(edge) ==> i32::MIN <= r.top + height <= i32::MAX
}

/// Bend the dragged rectangle to the window size chosen for the picture.
pub fn bend_rect(r: DragRect, edge: u32, width: i32, height: i32) -> (b: DragRect)
    requires
        bend_fits(r, edge, width as int, height as int),
    ensures
        b == spec_bend_rect(r, edge, width as int, height as int),
{
    let mut b = r;
    if edge == WMSZ_LEFT || edge == WMSZ_TOPLEFT || edge == WMSZ_BOTTOMLEFT {
        b.left = r.right - width;
    } else {
        b.right = r.left + width;
    }
    if edge == WMSZ_TOP || edge == WMSZ_TOPLEFT || edge == WMSZ_TOPRIGHT {
        b.top = r.bottom - height;
    } else {
        b.bottom = r.top + height;
    }
    b
}

/// The bent rectangle has exactly the size chosen, and the corner the drag holds stays where it
/// was.
pub proof fn law_bend_keeps_held_corner(r: DragRect, edge: u32, width: int, height: int)
    requires
        bend_fits(r, edge, width, height),
    ensures
        spec_bend_rect(r, edge, width, height).right - spec_bend_rect(r, edge, width, height).left
            == width,
        spec_bend_rect(r, edge, width, height).bottom - spec_bend_rect(r, edge, width, height).top
            == height,
        moves_left(edge) ==> spec_bend_rect(r, edge, width, height).right == r.right,
        !moves_left(edge) ==> spec_bend_rect(r, edge, width, height).left == r.left,
        moves_top(edge) ==> spec_bend_rect(r, edge, width, height).bottom == r.bottom,
        !moves_top(edge) ==> spec_bend_rect(r, edge, width, height).top == r.top,
{
}

} // verus!
