//! Tile kinds, grid directions, and each kind's collision polygon.
//!
//! A wedge fills half of its cell along a diagonal; `is_solid` says whether
//! a body crossing a cell edge while travelling in the given direction runs
//! into material, which drives the suppression of seam normals between
//! neighboring tiles.

use vstd::prelude::*;
use crate::vec2::{Vec2, spec_prim, lemma_prim_steps};
use crate::hull::{ConvexHull, well_shaped, spec_edge, spec_axes};

verus! {

/// Largest tile side length, in subunits.
pub const TILE_SIZE_LIMIT: i64 = 0x10_0000;

#[derive(Clone, Copy, PartialEq, Eq, Structural, Debug, Hash)]
pub enum Tile {
    Square,
    WedgeUpLeft,
    WedgeUpRight,
    WedgeDownLeft,
    WedgeDownRight,
}

#[derive(Clone, Copy, PartialEq, Eq, Structural, Debug, Hash)]
pub enum Direction {
    Up,
    Down,
    Left,
    Right,
}

impl Direction {
    pub open spec fn spec_opposite(self) -> Direction {
        match self {
            Direction::Up => Direction::Down,
            Direction::Down => Direction::Up,
            Direction::Left => Direction::Right,
            Direction::Right => Direction::Left,
        }
    }

    /// One grid step in this direction (y grows downward).
    pub open spec fn spec_delta(self) -> Vec2 {
        match self {
            Direction::Up => Vec2 { x: 0, y: (-1) as i64 },
            Direction::Down => Vec2 { x: 0, y: 1 },
            Direction::Left => Vec2 { x: (-1) as i64, y: 0 },
            Direction::Right => Vec2 { x: 1, y: 0 },
        }
    }

    /// The four directions, in the order the tile map scans them.
    pub fn all() -> (r: [Direction; 4])
        ensures
            r[0] == Direction::Up,
            r[1] == Direction::Down,
            r[2] == Direction::Left,
            r[3] == Direction::Right,
    {
        [Direction::Up, Direction::Down, Direction::Left, Direction::Right]
    }

    pub fn opposite(self) -> (r: Direction)
        ensures
            r == self.spec_opposite(),
    {
        match self {
            Direction::Up => Direction::Down,
            Direction::Down => Direction::Up,
            Direction::Left => Direction::Right,
            Direction::Right => Direction::Left,
        }
    }

    /// One grid step in this direction.
    pub fn as_delta(&self) -> (r: Vec2)
        ensures
            r == self.spec_delta(),
    {
        match *self {
            Direction::Up => Vec2 { x: 0, y: -1 },
            Direction::Down => Vec2 { x: 0, y: 1 },
            Direction::Left => Vec2 { x: -1, y: 0 },
            Direction::Right => Vec2 { x: 1, y: 0 },
        }
    }
}

impl Tile {
    /// Whether a body crossing into this tile while travelling in
    /// `incoming_direction` hits material: squares are solid from every
    /// side, a wedge only from the two sides its filled half touches.
    pub open spec fn spec_is_solid(self, incoming_direction: Direction) -> bool {
        match self {
            Tile::Square => true,
            Tile::WedgeUpLeft => !(incoming_direction == Direction::Down
                || incoming_direction == Direction::Right),
            Tile::WedgeUpRight => !(incoming_direction == Direction::Down
                || incoming_direction == Direction::Left),
            Tile::WedgeDownLeft => !(incoming_direction == Direction::Up
                || incoming_direction == Direction::Right),
            Tile::WedgeDownRight => !(incoming_direction == Direction::Up
                || incoming_direction == Direction::Left),
        }
    }

    pub fn is_solid(&self, incoming_direction: Direction) -> (r: bool)
        ensures
            r == self.spec_is_solid(incoming_direction),
    {
        match *self {
            Tile::Square => true,
            Tile::WedgeUpLeft => {
                match incoming_direction {
                    Direction::Down | Direction::Right => false,
                    _ => true,
                }
            }
            Tile::WedgeUpRight => {
                match incoming_direction {
                    Direction::Down | Direction::Left => false,
                    _ => true,
                }
            }
            Tile::WedgeDownLeft => {
                match incoming_direction {
                    Direction::Up | Direction::Right => false,
                    _ => true,
                }
            }
            Tile::WedgeDownRight => {
                match incoming_direction {
                    Direction::Up | Direction::Left => false,
                    _ => true,
                }
            }
        }
    }

    /// The corners of this tile's polygon in clockwise order, for a cell of
    /// side `size` whose top-left corner sits at the origin.
    pub open spec fn spec_corners(self, size: i64) -> Seq<Vec2> {
        match self {
            Tile::Square => seq![
                Vec2 { x: 0, y: 0 },
                Vec2 { x: size, y: 0 },
                Vec2 { x: size, y: size },
                Vec2 { x: 0, y: size },
            ],
            Tile::WedgeUpLeft => seq![
                Vec2 { x: size, y: 0 },
                Vec2 { x: size, y: size },
                Vec2 { x: 0, y: size },
            ],
            Tile::WedgeUpRight => seq![
                Vec2 { x: 0, y: 0 },
                Vec2 { x: size, y: size },
                Vec2 { x: 0, y: size },
            ],
            Tile::WedgeDownLeft => seq![
                Vec2 { x: 0, y: 0 },
                Vec2 { x: size, y: 0 },
                Vec2 { x: size, y: size },
            ],
            Tile::WedgeDownRight => seq![
                Vec2 { x: 0, y: 0 },
                Vec2 { x: size, y: 0 },
                Vec2 { x: 0, y: size },
            ],
        }
    }

    /// This tile's polygon at the origin, with freshly collected axes and
    /// no suppressed normals.
    pub fn get_convex_hull(&self, size: i64) -> (r: ConvexHull)
        requires
            0 < size <= TILE_SIZE_LIMIT,
        ensures
            r.spec_points() == self.spec_corners(size),
            r.spec_axes_of() == spec_axes(self.spec_corners(size)),
            r.spec_ignored() == Seq::<Vec2>::empty(),
            r.wf(),
    {
        proof {
            lemma_tile_corners_well_shaped(*self, size);
        }
        match *self {
            Tile::Square => {
                let mut pts: Vec<Vec2> = Vec::new();
                pts.push(Vec2 { x: 0, y: 0 });
                pts.push(Vec2 { x: size, y: 0 });
                pts.push(Vec2 { x: size, y: size });
                pts.push(Vec2 { x: 0, y: size });
                proof {
                    assert(pts@ =~= self.spec_corners(size));
                }
                ConvexHull::from_points(pts.as_slice())
            }
            Tile::WedgeUpLeft => {
                let mut pts: Vec<Vec2> = Vec::new();
                pts.push(Vec2 { x: size, y: 0 });
                pts.push(Vec2 { x: size, y: size });
                pts.push(Vec2 { x: 0, y: size });
                proof {
                    assert(pts@ =~= self.spec_corners(size));
                }
                ConvexHull::from_points(pts.as_slice())
            }
            Tile::WedgeUpRight => {
                let mut pts: Vec<Vec2> = Vec::new();
                pts.push(Vec2 { x: 0, y: 0 });
                pts.push(Vec2 { x: size, y: size });
                pts.push(Vec2 { x: 0, y: size });
                proof {
                    assert(pts@ =~= self.spec_corners(size));
                }
                ConvexHull::from_points(pts.as_slice())
            }
            Tile::WedgeDownLeft => {
                let mut pts: Vec<Vec2> = Vec::new();
                pts.push(Vec2 { x: 0, y: 0 });
                pts.push(Vec2 { x: size, y: 0 });
                pts.push(Vec2 { x: size, y: size });
                proof {
                    assert(pts@ =~= self.spec_corners(size));
                }
                ConvexHull::from_points(pts.as_slice())
            }
            Tile::WedgeDownRight => {
                let mut pts: Vec<Vec2> = Vec::new();
                pts.push(Vec2 { x: 0, y: 0 });
                pts.push(Vec2 { x: size, y: 0 });
                pts.push(Vec2 { x: 0, y: size });
                proof {
                    assert(pts@ =~= self.spec_corners(size));
                }
                ConvexHull::from_points(pts.as_slice())
            }
        }
    }
}

/// Every corner of a tile polygon has coordinates 0 or `size`.
pub proof fn lemma_corners_bounded(t: Tile, size: i64)
    requires
        0 < size <= TILE_SIZE_LIMIT,
    ensures
        forall|i: int| 0 <= i < t.spec_corners(size).len()
            ==> (#[trigger] t.spec_corners(size)[i]).bounded(size as int),
{
    let s = t.spec_corners(size);
    assert forall|i: int| 0 <= i < s.len() implies (#[trigger] s[i]).bounded(size as int) by {
        if i == 0 || i == 1 || i == 2 || i == 3 {
        }
    }
}

/// Every tile polygon meets `from_points`' shape conditions.
proof fn lemma_tile_corners_well_shaped(t: Tile, size: i64)
    requires
        0 < size <= TILE_SIZE_LIMIT,
    ensures
        well_shaped(t.spec_corners(size)),
{
    lemma_prim_steps(size);
    let s = t.spec_corners(size);
    assert forall|i: int| 0 <= i < s.len() implies !(#[trigger] spec_edge(s, i)).is_zero()
        && spec_prim(spec_edge(s, i)).bounded(0x100) by {
        assert(s.len() == 3 || s.len() == 4);
        if i == 0 || i == 1 || i == 2 || i == 3 {
        }
    }
}

} // verus!
