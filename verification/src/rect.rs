//! A closed integer rectangle, used for cell-range selections.

use vstd::prelude::*;
use crate::vec2::Vec2;

verus! {

#[derive(Clone, Copy, PartialEq, Eq, Structural, Debug)]
pub struct Rectangle {
    pub left: i64,
    pub right: i64,
    pub top: i64,
    pub bottom: i64,
}

impl Rectangle {
    pub fn new(left: i64, right: i64, top: i64, bottom: i64) -> (r: Rectangle)
        ensures
            r == (Rectangle { left, right, top, bottom }),
    {
        Rectangle { left, right, top, bottom }
    }

    /// True if the point lies in the rectangle, borders included.
    pub fn contains(&self, point: Vec2) -> (r: bool)
        ensures
            r == (self.left <= point.x <= self.right && self.top <= point.y <= self.bottom),
    {
        self.left <= point.x && point.x <= self.right && self.top <= point.y
            && point.y <= self.bottom
    }
}

} // verus!
