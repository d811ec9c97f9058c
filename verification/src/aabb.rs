//! Axis-aligned bounding boxes with per-edge collidability flags.
//!
//! In this y-down coordinate system `top <= bottom`. The four edge flags say
//! whether the matching edge can be collided with; a push direction is valid
//! only when the exiting box's edge and the entered box's opposite edge are
//! both collidable.

use vstd::prelude::*;
use crate::vec2::{Vec2, COORD_LIMIT};

verus! {

#[derive(Clone, Copy, PartialEq, Eq, Structural, Debug)]
pub struct AABB {
    pub left: i64,
    pub right: i64,
    pub top: i64,
    pub bottom: i64,
    /// Collidability of the left, right, top and bottom edges.
    pub edge_left: bool,
    pub edge_right: bool,
    pub edge_top: bool,
    pub edge_bottom: bool,
}

impl AABB {
    /// All four coordinates lie in `[-b, b]`.
    pub open spec fn coords_bounded(self, b: int) -> bool {
        &&& -b <= self.left <= b
        &&& -b <= self.right <= b
        &&& -b <= self.top <= b
        &&& -b <= self.bottom <= b
    }

    /// The boxes intersect, touching included.
    pub open spec fn spec_intersects(self, other: AABB) -> bool {
        &&& self.left <= other.right
        &&& other.left <= self.right
        &&& self.top <= other.bottom
        &&& other.top <= self.bottom
    }

    /// The boxes overlap with positive area.
    pub open spec fn spec_strict_overlap(self, other: AABB) -> bool {
        &&& self.left < other.right
        &&& other.left < self.right
        &&& self.top < other.bottom
        &&& other.top < self.bottom
    }

    /// The overlap query's exact result: the boxes must overlap strictly,
    /// each axis offers its smaller push-out distance only if both involved
    /// edges are collidable, and of two valid axes the smaller depth wins,
    /// the x axis on a tie. The returned vector pushes `self` out of
    /// `other`. Meaningful when both boxes' coordinates are bounded by
    /// `COORD_LIMIT` so no difference is truncated.
    pub open spec fn spec_overlap(self, other: AABB) -> Option<(i64, Vec2)> {
        if self.spec_strict_overlap(other) {
            let left = other.right - self.left;
            let right = self.right - other.left;
            let top = other.bottom - self.top;
            let bottom = self.bottom - other.top;
            let x = if left < right {
                if self.edge_left && other.edge_right { Some(left) } else { None }
            } else {
                if self.edge_right && other.edge_left { Some(right) } else { None }
            };
            let y = if top < bottom {
                if self.edge_top && other.edge_bottom { Some(top) } else { None }
            } else {
                if self.edge_bottom && other.edge_top { Some(bottom) } else { None }
            };
            let x_push = Vec2 {
                x: (if left < right { x->Some_0 } else { -x->Some_0 }) as i64,
                y: 0,
            };
            let y_push = Vec2 {
                x: 0,
                y: (if top < bottom { y->Some_0 } else { -y->Some_0 }) as i64,
            };
            if x is Some && y is Some {
                if x->Some_0 <= y->Some_0 {
                    Some(((x->Some_0) as i64, x_push))
                } else {
                    Some(((y->Some_0) as i64, y_push))
                }
            } else if x is Some {
                Some(((x->Some_0) as i64, x_push))
            } else if y is Some {
                Some(((y->Some_0) as i64, y_push))
            } else {
                None
            }
        } else {
            None
        }
    }

    /// A box with all edges collidable.
    pub fn new(left: i64, right: i64, top: i64, bottom: i64) -> (r: AABB)
        ensures
            r == (AABB {
                left,
                right,
                top,
                bottom,
                edge_left: true,
                edge_right: true,
                edge_top: true,
                edge_bottom: true,
            }),
    {
        AABB {
            left,
            right,
            top,
            bottom,
            edge_left: true,
            edge_right: true,
            edge_top: true,
            edge_bottom: true,
        }
    }

    /// Shift the box; the edge flags are unaffected.
    pub fn translate(&mut self, amount: Vec2)
        requires
            old(self).coords_bounded(2 * COORD_LIMIT as int),
            amount.bounded(2 * COORD_LIMIT as int),
        ensures
            final(self).left == old(self).left + amount.x,
            final(self).right == old(self).right + amount.x,
            final(self).top == old(self).top + amount.y,
            final(self).bottom == old(self).bottom + amount.y,
            final(self).edge_left == old(self).edge_left,
            final(self).edge_right == old(self).edge_right,
            final(self).edge_top == old(self).edge_top,
            final(self).edge_bottom == old(self).edge_bottom,
    {
        self.left = self.left + amount.x;
        self.right = self.right + amount.x;
        self.top = self.top + amount.y;
        self.bottom = self.bottom + amount.y;
    }

    /// True if the boxes intersect, touching included.
    pub fn intersects(&self, other: &AABB) -> (r: bool)
        ensures
            r == self.spec_intersects(*other),
    {
        self.left <= other.right && other.left <= self.right && self.top <= other.bottom
            && other.top <= self.bottom
    }

    /// True if the point lies strictly inside the box.
    pub fn contains(&self, point: Vec2) -> (r: bool)
        ensures
            r == (self.left < point.x < self.right && self.top < point.y < self.bottom),
    {
        self.left < point.x && point.x < self.right && self.top < point.y
            && point.y < self.bottom
    }

    /// Minimum-translation overlap between two boxes, gated by edge flags.
    pub fn overlap(&self, other: &AABB) -> (r: Option<(i64, Vec2)>)
        requires
            self.coords_bounded(COORD_LIMIT as int),
            other.coords_bounded(COORD_LIMIT as int),
        ensures
            r == self.spec_overlap(*other),
            r is Some ==> self.spec_strict_overlap(*other),
            r is Some ==> r->Some_0.0 > 0,
    {
        if self.left < other.right && other.left < self.right && self.top < other.bottom
            && other.top < self.bottom {
            let left = other.right - self.left;
            let right = self.right - other.left;
            let top = other.bottom - self.top;
            let bottom = self.bottom - other.top;

            let x = if left < right {
                if self.edge_left && other.edge_right { Some(left) } else { None }
            } else {
                if self.edge_right && other.edge_left { Some(right) } else { None }
            };
            let y = if top < bottom {
                if self.edge_top && other.edge_bottom { Some(top) } else { None }
            } else {
                if self.edge_bottom && other.edge_top { Some(bottom) } else { None }
            };

            match (x, y) {
                (Some(x), Some(y)) => {
                    if x <= y {
                        Some((x, Vec2 { x: if left < right { x } else { -x }, y: 0 }))
                    } else {
                        Some((y, Vec2 { x: 0, y: if top < bottom { y } else { -y } }))
                    }
                }
                (Some(x), None) => {
                    Some((x, Vec2 { x: if left < right { x } else { -x }, y: 0 }))
                }
                (None, Some(y)) => {
                    Some((y, Vec2 { x: 0, y: if top < bottom { y } else { -y } }))
                }
                (None, None) => None,
            }
        } else {
            None
        }
    }
}

} // verus!
