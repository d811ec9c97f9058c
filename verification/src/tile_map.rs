//! The tile map: a finite grid of tiles, each carrying its collision
//! polygon, with seam normals between mutually solid neighbors suppressed.
//!
//! The map's invariant ties every stored polygon to its tile kind, cell
//! position and the current neighborhood: the polygon is the kind's shape
//! translated to the cell, and its suppressed normals are exactly the
//! directions toward present, mutually solid neighbors. Inserting or
//! removing a tile re-establishes this for the cell and its four
//! axis-neighbors, the only cells whose suppression sets can change.

use vstd::prelude::*;
use crate::vec2::{Vec2, COORD_LIMIT};
use crate::aabb::AABB;
use crate::tile::{Tile, Direction, TILE_SIZE_LIMIT, lemma_corners_bounded};
use crate::hull::{ConvexHull, HullView, Contact, spec_axes, spec_overlap, spec_overlap_v,
    spec_depth_lt, spec_depth_le, depth_lt, PROJ_LIMIT};
use crate::hull::{spec_proj_min, spec_proj_max};
use crate::vec2::AXIS_LIMIT;

verus! {

/// Largest magnitude of a grid coordinate.
pub const GRID_LIMIT: i64 = 0x8_0000;

/// Largest number of tiles a map may hold.
pub const TILE_COUNT_LIMIT: usize = 0x10_0000;

pub struct TileEntry {
    pub pos: Vec2,
    pub kind: Tile,
    pub hull: ConvexHull,
}

pub struct TileMap {
    tiles: Vec<TileEntry>,
    tile_size: i64,
    player_start: Vec2,
}

/// The map described by an entry list: position to tile kind.
pub open spec fn entries_model(s: Seq<TileEntry>) -> Map<Vec2, Tile>
    decreases s.len(),
{
    if s.len() == 0 {
        Map::empty()
    } else {
        entries_model(s.drop_last()).insert(s.last().pos, s.last().kind)
    }
}

/// No two entries share a position.
pub open spec fn unique_positions(s: Seq<TileEntry>) -> bool {
    forall|i: int, j: int| 0 <= i < j < s.len() ==> (#[trigger] s[i].pos) != (#[trigger] s[j].pos)
}

/// A position is in the model exactly when some entry holds it.
pub proof fn lemma_model_contains(s: Seq<TileEntry>, p: Vec2)
    ensures
        entries_model(s).contains_key(p) <==> exists|i: int| 0 <= i < s.len()
            && (#[trigger] s[i].pos) == p,
    decreases s.len(),
{
    if s.len() > 0 {
        lemma_model_contains(s.drop_last(), p);
        if s.last().pos == p {
            assert(s[s.len() - 1].pos == p);
        } else if entries_model(s).contains_key(p) {
            let i = choose|i: int| 0 <= i < s.drop_last().len() && s.drop_last()[i].pos == p;
            assert(s[i].pos == p);
        } else {
            if exists|i: int| 0 <= i < s.len() && (#[trigger] s[i].pos) == p {
                let i = choose|i: int| 0 <= i < s.len() && (#[trigger] s[i].pos) == p;
                assert(i < s.len() - 1);
                assert(s.drop_last()[i].pos == p);
            }
        }
    }
}

/// With unique positions, each entry's kind is the model's value at its
/// position.
pub proof fn lemma_model_at(s: Seq<TileEntry>, i: int)
    requires
        unique_positions(s),
        0 <= i < s.len(),
    ensures
        entries_model(s).contains_key(s[i].pos),
        entries_model(s)[s[i].pos] == s[i].kind,
    decreases s.len(),
{
    if i == s.len() - 1 {
        assert(s.last() == s[i]);
    } else {
        assert(unique_positions(s.drop_last()));
        lemma_model_at(s.drop_last(), i);
        assert(s.drop_last()[i] == s[i]);
        assert(s[i].pos != s[s.len() - 1].pos);
    }
}

/// Replacing the `i`-th entry by one at the same position sets that
/// position's kind in the model.
pub proof fn lemma_model_set(s: Seq<TileEntry>, i: int, e: TileEntry)
    requires
        unique_positions(s),
        0 <= i < s.len(),
        s[i].pos == e.pos,
    ensures
        entries_model(s.update(i, e)) == entries_model(s).insert(e.pos, e.kind),
    decreases s.len(),
{
    if i == s.len() - 1 {
        assert(s.update(i, e).drop_last() =~= s.drop_last());
        assert(s.update(i, e).last() == e);
        assert(entries_model(s.drop_last()).insert(e.pos, e.kind)
            =~= entries_model(s.drop_last()).insert(s[i].pos, s[i].kind).insert(e.pos, e.kind));
    } else {
        assert(unique_positions(s.drop_last()));
        assert(s.update(i, e).drop_last() =~= s.drop_last().update(i, e));
        lemma_model_set(s.drop_last(), i, e);
        assert(s.update(i, e).last() == s.last());
        assert(s.last().pos != e.pos);
        assert(entries_model(s.drop_last()).insert(e.pos, e.kind)
                .insert(s.last().pos, s.last().kind)
            =~= entries_model(s.drop_last()).insert(s.last().pos, s.last().kind)
                .insert(e.pos, e.kind));
    }
}

/// Appending an entry inserts its position into the model.
pub proof fn lemma_model_push(s: Seq<TileEntry>, e: TileEntry)
    ensures
        entries_model(s.push(e)) == entries_model(s).insert(e.pos, e.kind),
{
    assert(s.push(e).drop_last() =~= s);
    assert(s.push(e).last() == e);
}

/// With unique positions, removing the `i`-th entry removes its position
/// from the model.
pub proof fn lemma_model_remove(s: Seq<TileEntry>, i: int)
    requires
        unique_positions(s),
        0 <= i < s.len(),
    ensures
        entries_model(s.remove(i)) == entries_model(s).remove(s[i].pos),
    decreases s.len(),
{
    let p = s[i].pos;
    if i == s.len() - 1 {
        assert(s.remove(i) =~= s.drop_last());
        lemma_model_contains(s.drop_last(), p);
        assert(forall|j: int| 0 <= j < s.drop_last().len()
            ==> (#[trigger] s.drop_last()[j].pos) != p);
        assert(!entries_model(s.drop_last()).contains_key(p));
        assert(entries_model(s.drop_last()).insert(p, s[i].kind).remove(p)
            =~= entries_model(s.drop_last()));
    } else {
        assert(unique_positions(s.drop_last()));
        lemma_model_remove(s.drop_last(), i);
        assert(s.remove(i).drop_last() =~= s.drop_last().remove(i));
        assert(s.remove(i).last() == s.last());
        assert(s.last().pos != p);
        assert(entries_model(s.drop_last()).remove(p).insert(s.last().pos, s.last().kind)
            =~= entries_model(s.drop_last()).insert(s.last().pos, s.last().kind).remove(p));
    }
}

/// The tile at `pos + d` suppresses this tile's normal toward `d`: the
/// neighbor is present, solid against travel in `d`, and this tile is
/// solid against travel back.
pub open spec fn suppresses(m: Map<Vec2, Tile>, pos: Vec2, kind: Tile, d: Direction) -> bool {
    let np = pos.spec_add(d.spec_delta());
    &&& m.contains_key(np)
    &&& m[np].spec_is_solid(d)
    &&& kind.spec_is_solid(d.spec_opposite())
}

/// One step of assembling the suppressed-normal list.
pub open spec fn ignored_step(
    m: Map<Vec2, Tile>,
    pos: Vec2,
    kind: Tile,
    acc: Seq<Vec2>,
    d: Direction,
) -> Seq<Vec2> {
    if suppresses(m, pos, kind, d) {
        acc.push(d.spec_delta())
    } else {
        acc
    }
}

/// The suppressed normals of the tile `kind` at `pos` under map `m`: the
/// unit steps toward present, mutually solid neighbors, scanned in the
/// order up, down, left, right.
pub open spec fn spec_ignored_seq(m: Map<Vec2, Tile>, pos: Vec2, kind: Tile) -> Seq<Vec2> {
    let s1 = ignored_step(m, pos, kind, Seq::empty(), Direction::Up);
    let s2 = ignored_step(m, pos, kind, s1, Direction::Down);
    let s3 = ignored_step(m, pos, kind, s2, Direction::Left);
    ignored_step(m, pos, kind, s3, Direction::Right)
}

/// Two maps that agree on the four neighbors of `pos` give the tile there
/// the same suppressed normals.
pub proof fn lemma_ignored_local(
    m1: Map<Vec2, Tile>,
    m2: Map<Vec2, Tile>,
    pos: Vec2,
    kind: Tile,
)
    requires
        forall|d: Direction| #![trigger d.spec_delta()] {
            let np = pos.spec_add(d.spec_delta());
            m1.contains_key(np) == m2.contains_key(np)
                && (m1.contains_key(np) ==> m1[np] == m2[np])
        },
    ensures
        spec_ignored_seq(m1, pos, kind) == spec_ignored_seq(m2, pos, kind),
{
    assert(m1.contains_key(pos.spec_add(Direction::Up.spec_delta()))
        == m2.contains_key(pos.spec_add(Direction::Up.spec_delta())));
    assert(m1.contains_key(pos.spec_add(Direction::Down.spec_delta()))
        == m2.contains_key(pos.spec_add(Direction::Down.spec_delta())));
    assert(m1.contains_key(pos.spec_add(Direction::Left.spec_delta()))
        == m2.contains_key(pos.spec_add(Direction::Left.spec_delta())));
    assert(m1.contains_key(pos.spec_add(Direction::Right.spec_delta()))
        == m2.contains_key(pos.spec_add(Direction::Right.spec_delta())));
}

/// The stored polygon of tile `kind` at cell `pos` under map `m`: the
/// kind's corners shifted by `pos * size`, the kind's own axes, and
/// exactly the neighborhood's suppressed normals.
pub open spec fn hull_matches(
    h: ConvexHull,
    kind: Tile,
    size: i64,
    pos: Vec2,
    m: Map<Vec2, Tile>,
) -> bool {
    let base = kind.spec_corners(size);
    &&& h.spec_points().len() == base.len()
    &&& forall|i: int| 0 <= i < base.len()
        ==> (#[trigger] h.spec_points()[i]) == (Vec2 {
            x: (base[i].x + pos.x * size) as i64,
            y: (base[i].y + pos.y * size) as i64,
        })
    &&& h.spec_axes_of() == spec_axes(base)
    &&& h.spec_ignored() == spec_ignored_seq(m, pos, kind)
}

impl TileMap {
    pub closed spec fn spec_entries(self) -> Seq<TileEntry> {
        self.tiles@
    }

    pub closed spec fn spec_tile_size(self) -> i64 {
        self.tile_size
    }

    pub closed spec fn spec_player_start(self) -> Vec2 {
        self.player_start
    }

    /// The position-to-kind map this tile map holds.
    pub open spec fn model(self) -> Map<Vec2, Tile> {
        entries_model(self.spec_entries())
    }

    /// Well-formedness, except that the entries at positions in `bad` may
    /// have stale suppressed-normal lists.
    pub open spec fn wf_except(self, bad: Set<Vec2>) -> bool {
        &&& 0 < self.spec_tile_size() <= TILE_SIZE_LIMIT
        &&& self.spec_entries().len() <= TILE_COUNT_LIMIT
        &&& unique_positions(self.spec_entries())
        &&& self.spec_player_start().bounded(GRID_LIMIT as int)
        &&& forall|i: int| 0 <= i < self.spec_entries().len()
            ==> (#[trigger] self.spec_entries()[i].pos).bounded(GRID_LIMIT as int)
        &&& forall|i: int| 0 <= i < self.spec_entries().len()
            ==> (#[trigger] self.spec_entries()[i].hull).wf()
        &&& forall|i: int| 0 <= i < self.spec_entries().len()
            && !bad.contains((#[trigger] self.spec_entries()[i]).pos)
            ==> hull_matches(
                self.spec_entries()[i].hull,
                self.spec_entries()[i].kind,
                self.spec_tile_size(),
                self.spec_entries()[i].pos,
                self.model(),
            )
    }

    /// Every stored polygon matches its tile, cell and neighborhood.
    pub open spec fn wf(self) -> bool {
        self.wf_except(Set::empty())
    }

    /// An empty map.
    pub fn new(tile_size: i64) -> (r: TileMap)
        requires
            0 < tile_size <= TILE_SIZE_LIMIT,
        ensures
            r.wf(),
            r.model() == Map::<Vec2, Tile>::empty(),
            r.spec_tile_size() == tile_size,
            r.spec_player_start() == (Vec2 { x: 0, y: 0 }),
    {
        let r = TileMap {
            tiles: Vec::new(),
            tile_size,
            player_start: Vec2 { x: 0, y: 0 },
        };
        proof {
            assert(r.spec_entries().len() == 0);
        }
        r
    }

    /// The side length of one tile, in subunits.
    pub fn get_tile_size(&self) -> (r: i64)
        ensures
            r == self.spec_tile_size(),
    {
        self.tile_size
    }

    /// The configured player start cell.
    pub fn get_player_start(&self) -> (r: Vec2)
        ensures
            r == self.spec_player_start(),
    {
        self.player_start
    }

    /// Set the player start cell.
    pub fn set_player_start(&mut self, pos: Vec2)
        requires
            pos.bounded(GRID_LIMIT as int),
        ensures
            final(self).spec_player_start() == pos,
            final(self).spec_entries() == old(self).spec_entries(),
            final(self).spec_tile_size() == old(self).spec_tile_size(),
            forall|bad: Set<Vec2>| old(self).wf_except(bad) ==> final(self).wf_except(bad),
    {
        self.player_start = pos;
    }

    /// The number of tiles.
    pub fn tile_count(&self) -> (r: usize)
        ensures
            r == self.spec_entries().len(),
    {
        self.tiles.len()
    }

    /// The index of the entry at `pos`, if any.
    fn find_index(&self, pos: Vec2) -> (r: Option<usize>)
        ensures
            match r {
                Some(i) => i < self.spec_entries().len() && self.spec_entries()[i as int].pos == pos,
                None => forall|j: int| 0 <= j < self.spec_entries().len()
                    ==> (#[trigger] self.spec_entries()[j].pos) != pos,
            },
    {
        let mut i: usize = 0;
        while i < self.tiles.len()
            invariant
                0 <= i <= self.spec_entries().len(),
                forall|j: int| 0 <= j < i ==> (#[trigger] self.spec_entries()[j].pos) != pos,
            decreases self.spec_entries().len() - i,
        {
            if self.tiles[i].pos == pos {
                return Some(i);
            }
            i = i + 1;
        }
        None
    }

    /// The kind of the `i`-th stored entry.
    pub fn entry_kind_at(&self, i: usize) -> (r: Tile)
        requires
            i < self.spec_entries().len(),
        ensures
            r == self.spec_entries()[i as int].kind,
    {
        self.tiles[i].kind
    }

    /// The cell of the `i`-th stored entry.
    pub fn entry_pos_at(&self, i: usize) -> (r: Vec2)
        requires
            i < self.spec_entries().len(),
        ensures
            r == self.spec_entries()[i as int].pos,
    {
        self.tiles[i].pos
    }

    /// The kind of the tile at `pos`, if present.
    pub fn tile_at(&self, pos: Vec2) -> (r: Option<Tile>)
        requires
            self.wf(),
        ensures
            match r {
                Some(t) => self.model().contains_key(pos) && self.model()[pos] == t,
                None => !self.model().contains_key(pos),
            },
    {
        proof {
            lemma_model_contains(self.spec_entries(), pos);
        }
        match self.find_index(pos) {
            Some(i) => {
                proof {
                    lemma_model_at(self.spec_entries(), i as int);
                }
                Some(self.tiles[i].kind)
            }
            None => None,
        }
    }

    /// The stored polygon of the tile at `pos`, if present.
    pub fn hull_at(&self, pos: Vec2) -> (r: Option<&ConvexHull>)
        requires
            self.wf(),
        ensures
            match r {
                Some(h) => {
                    &&& self.model().contains_key(pos)
                    &&& h.wf()
                    &&& hull_matches(
                        *h,
                        self.model()[pos],
                        self.spec_tile_size(),
                        pos,
                        self.model(),
                    )
                },
                None => !self.model().contains_key(pos),
            },
    {
        proof {
            lemma_model_contains(self.spec_entries(), pos);
        }
        match self.find_index(pos) {
            Some(i) => {
                proof {
                    lemma_model_at(self.spec_entries(), i as int);
                }
                Some(&self.tiles[i].hull)
            }
            None => None,
        }
    }
}

/// The four axis-neighbor cells of `pos`.
pub open spec fn neighbor_cells(pos: Vec2) -> Set<Vec2> {
    set![
        pos.spec_add(Direction::Up.spec_delta()),
        pos.spec_add(Direction::Down.spec_delta()),
        pos.spec_add(Direction::Left.spec_delta()),
        pos.spec_add(Direction::Right.spec_delta()),
    ]
}

/// If `q` is not `pos` and not one of `pos`'s neighbors, then none of
/// `q`'s neighbors is `pos` either, so a model change at `pos` alone
/// leaves `q`'s suppressed normals unchanged.
proof fn lemma_neighbor_symmetry(pos: Vec2, q: Vec2, d: Direction)
    requires
        pos.bounded(2 * GRID_LIMIT as int),
        q.bounded(2 * GRID_LIMIT as int),
        !neighbor_cells(pos).contains(q),
    ensures
        q.spec_add(d.spec_delta()) != pos,
{
    if q.spec_add(d.spec_delta()) == pos {
        assert(pos.spec_add(d.spec_opposite().spec_delta()) == q);
        assert(neighbor_cells(pos).contains(q));
    }
}

impl TileMap {
    /// The polygon of tile `kind` as stored at cell `pos`: the kind's
    /// shape translated there, with the neighborhood's seam normals
    /// suppressed.
    fn build_hull(&self, pos: Vec2, kind: Tile) -> (h: ConvexHull)
        requires
            0 < self.spec_tile_size() <= TILE_SIZE_LIMIT,
            unique_positions(self.spec_entries()),
            pos.bounded(GRID_LIMIT as int),
        ensures
            h.wf(),
            hull_matches(
                h,
                kind,
                self.spec_tile_size(),
                pos,
                self.model().insert(pos, kind),
            ),
    {
        let size = self.tile_size;
        let mut hull = kind.get_convex_hull(size);
        proof {
            assert(
                -0x80_0000_0000 <= pos.x * size <= 0x80_0000_0000
                && -0x80_0000_0000 <= pos.y * size <= 0x80_0000_0000
            ) by (nonlinear_arith)
                requires pos.bounded(0x8_0000), 0 < size <= 0x10_0000;
            lemma_corners_bounded(kind, size);
        }
        let off = Vec2 { x: pos.x * size, y: pos.y * size };
        let ghost base_pts = hull.spec_points();
        proof {
            assert(forall|i: int| 0 <= i < hull.spec_points().len()
                ==> (#[trigger] hull.spec_points()[i]).bounded(2 * COORD_LIMIT as int));
        }
        hull.translate(off);
        proof {
            assert forall|i: int| 0 <= i < hull.spec_points().len()
                implies (#[trigger] hull.spec_points()[i]).bounded(COORD_LIMIT as int) by {
                assert(hull.spec_points()[i] == (Vec2 {
                    x: (base_pts[i].x + off.x) as i64,
                    y: (base_pts[i].y + off.y) as i64,
                }));
                assert(base_pts[i].bounded(size as int));
            }
            assert(hull.wf());
        }

        let ghost m = self.model();
        let ghost m_new = self.model().insert(pos, kind);

        let d0 = Direction::Up;
        let delta0 = d0.as_delta();
        let np0 = pos.add(delta0);
        proof {
            lemma_model_contains(self.spec_entries(), np0);
        }
        match self.find_index(np0) {
            Some(j) => {
                proof {
                    lemma_model_at(self.spec_entries(), j as int);
                }
                if self.tiles[j].kind.is_solid(d0) && kind.is_solid(d0.opposite()) {
                    hull.ignore_normal(delta0);
                }
            }
            None => {}
        }
        proof {
            assert(hull.spec_ignored() == ignored_step(m, pos, kind, Seq::empty(), d0));
        }

        let d1 = Direction::Down;
        let delta1 = d1.as_delta();
        let np1 = pos.add(delta1);
        proof {
            lemma_model_contains(self.spec_entries(), np1);
        }
        match self.find_index(np1) {
            Some(j) => {
                proof {
                    lemma_model_at(self.spec_entries(), j as int);
                }
                if self.tiles[j].kind.is_solid(d1) && kind.is_solid(d1.opposite()) {
                    hull.ignore_normal(delta1);
                }
            }
            None => {}
        }

        let d2 = Direction::Left;
        let delta2 = d2.as_delta();
        let np2 = pos.add(delta2);
        proof {
            lemma_model_contains(self.spec_entries(), np2);
        }
        match self.find_index(np2) {
            Some(j) => {
                proof {
                    lemma_model_at(self.spec_entries(), j as int);
                }
                if self.tiles[j].kind.is_solid(d2) && kind.is_solid(d2.opposite()) {
                    hull.ignore_normal(delta2);
                }
            }
            None => {}
        }

        let d3 = Direction::Right;
        let delta3 = d3.as_delta();
        let np3 = pos.add(delta3);
        proof {
            lemma_model_contains(self.spec_entries(), np3);
        }
        match self.find_index(np3) {
            Some(j) => {
                proof {
                    lemma_model_at(self.spec_entries(), j as int);
                }
                if self.tiles[j].kind.is_solid(d3) && kind.is_solid(d3.opposite()) {
                    hull.ignore_normal(delta3);
                }
            }
            None => {}
        }

        proof {
            assert(hull.spec_ignored() == spec_ignored_seq(m, pos, kind));
            lemma_ignored_local(m_new, m, pos, kind);
        }
        hull
    }

    /// Recompute the suppressed normals of the tile at `pos`, if present.
    fn update_tile(&mut self, pos: Vec2, Ghost(bad): Ghost<Set<Vec2>>)
        requires
            old(self).wf_except(bad),
            pos.bounded(2 * GRID_LIMIT as int),
        ensures
            final(self).wf_except(bad.remove(pos)),
            final(self).model() == old(self).model(),
            final(self).spec_tile_size() == old(self).spec_tile_size(),
            final(self).spec_player_start() == old(self).spec_player_start(),
            final(self).spec_entries().len() == old(self).spec_entries().len(),
    {
        match self.find_index(pos) {
            Some(i) => {
                let kind = self.tiles[i].kind;
                let entry_pos = self.tiles[i].pos;
                proof {
                    lemma_model_at(self.spec_entries(), i as int);
                }
                let h = self.build_hull(entry_pos, kind);
                let e = TileEntry { pos: entry_pos, kind, hull: h };
                self.tiles[i] = e;
                proof {
                    let s_old = old(self).spec_entries();
                    let s_new = self.spec_entries();
                    assert(s_new == s_old.update(i as int, e));
                    lemma_model_set(s_old, i as int, e);
                    assert(entries_model(s_old).insert(pos, kind) =~= entries_model(s_old));
                    assert(self.model() == old(self).model());
                    assert(unique_positions(s_new));
                    assert forall|j: int| 0 <= j < s_new.len()
                        && !bad.remove(pos).contains((#[trigger] s_new[j]).pos)
                        implies hull_matches(
                            s_new[j].hull,
                            s_new[j].kind,
                            self.spec_tile_size(),
                            s_new[j].pos,
                            self.model(),
                        ) by {
                        if j == i {
                            assert(hull_matches(h, kind, self.spec_tile_size(), pos,
                                old(self).model().insert(pos, kind)));
                            assert(old(self).model().insert(pos, kind) =~= self.model());
                        } else {
                            assert(s_new[j] == s_old[j]);
                            assert(s_new[j].pos != pos);
                            assert(!bad.contains(s_new[j].pos));
                        }
                    }
                }
            }
            None => {
                proof {
                    assert forall|j: int| 0 <= j < self.spec_entries().len()
                        && !bad.remove(pos).contains((#[trigger] self.spec_entries()[j]).pos)
                        implies hull_matches(
                            self.spec_entries()[j].hull,
                            self.spec_entries()[j].kind,
                            self.spec_tile_size(),
                            self.spec_entries()[j].pos,
                            self.model(),
                        ) by {
                        assert(self.spec_entries()[j].pos != pos);
                        assert(!bad.contains(self.spec_entries()[j].pos));
                    }
                }
            }
        }
    }

    /// Insert (or replace) the tile at `pos` and re-establish the seam
    /// suppression of the cell and its four neighbors.
    pub fn add_tile(&mut self, pos: Vec2, tile: Tile)
        requires
            old(self).wf(),
            pos.bounded(GRID_LIMIT as int),
            old(self).spec_entries().len() < TILE_COUNT_LIMIT,
        ensures
            final(self).wf(),
            final(self).model() == old(self).model().insert(pos, tile),
            final(self).spec_tile_size() == old(self).spec_tile_size(),
            final(self).spec_player_start() == old(self).spec_player_start(),
            final(self).spec_entries().len() <= old(self).spec_entries().len() + 1,
    {
        let h = self.build_hull(pos, tile);
        let e = TileEntry { pos, kind: tile, hull: h };
        let ghost m_old = self.model();
        let ghost m_new = self.model().insert(pos, tile);
        let ghost bad = neighbor_cells(pos);
        match self.find_index(pos) {
            Some(i) => {
                self.tiles[i] = e;
                proof {
                    lemma_model_set(old(self).spec_entries(), i as int, e);
                }
            }
            None => {
                self.tiles.push(e);
                proof {
                    lemma_model_push(old(self).spec_entries(), e);
                    let s_new = self.spec_entries();
                    assert forall|i: int, j: int| 0 <= i < j < s_new.len()
                        implies (#[trigger] s_new[i].pos) != (#[trigger] s_new[j].pos) by {
                        if j == s_new.len() - 1 {
                            assert(s_new[i] == old(self).spec_entries()[i]);
                        }
                    }
                }
            }
        }
        proof {
            assert(self.model() == m_new);
            lemma_wf_after_point_change(*self, m_old, pos, bad);
        }
        self.update_tile(pos.add(Vec2 { x: 0, y: -1 }), Ghost(bad));
        self.update_tile(pos.add(Vec2 { x: 0, y: 1 }), Ghost(bad.remove(
            pos.spec_add(Direction::Up.spec_delta()))));
        self.update_tile(pos.add(Vec2 { x: -1, y: 0 }), Ghost(bad.remove(
            pos.spec_add(Direction::Up.spec_delta())).remove(
            pos.spec_add(Direction::Down.spec_delta()))));
        self.update_tile(pos.add(Vec2 { x: 1, y: 0 }), Ghost(bad.remove(
            pos.spec_add(Direction::Up.spec_delta())).remove(
            pos.spec_add(Direction::Down.spec_delta())).remove(
            pos.spec_add(Direction::Left.spec_delta()))));
        proof {
            let leftover = bad.remove(pos.spec_add(Direction::Up.spec_delta()))
                .remove(pos.spec_add(Direction::Down.spec_delta()))
                .remove(pos.spec_add(Direction::Left.spec_delta()))
                .remove(pos.spec_add(Direction::Right.spec_delta()));
            assert(leftover =~= Set::<Vec2>::empty());
        }
    }

    /// Remove the tile at `pos`, if any, and re-establish the seam
    /// suppression of its four neighbors.
    pub fn remove_tile(&mut self, pos: Vec2)
        requires
            old(self).wf(),
            pos.bounded(GRID_LIMIT as int),
        ensures
            final(self).wf(),
            final(self).model() == old(self).model().remove(pos),
            final(self).spec_tile_size() == old(self).spec_tile_size(),
            final(self).spec_player_start() == old(self).spec_player_start(),
    {
        let ghost m_old = self.model();
        let ghost m_new = self.model().remove(pos);
        let ghost bad = neighbor_cells(pos);
        match self.find_index(pos) {
            Some(i) => {
                self.tiles.remove(i);
                proof {
                    lemma_model_remove(old(self).spec_entries(), i as int);
                    let s_old = old(self).spec_entries();
                    let s_new = self.spec_entries();
                    assert(s_new == s_old.remove(i as int));
                    assert forall|a: int, b: int| 0 <= a < b < s_new.len()
                        implies (#[trigger] s_new[a].pos) != (#[trigger] s_new[b].pos) by {
                        let a0 = if a < i { a } else { a + 1 };
                        let b0 = if b < i { b } else { b + 1 };
                        assert(s_new[a] == s_old[a0]);
                        assert(s_new[b] == s_old[b0]);
                    }
                }
            }
            None => {
                proof {
                    lemma_model_contains(old(self).spec_entries(), pos);
                    assert(m_new =~= m_old);
                }
            }
        }
        proof {
            assert(self.model() == m_new);
            lemma_wf_after_point_change(*self, m_old, pos, bad);
        }
        self.update_tile(pos.add(Vec2 { x: 0, y: -1 }), Ghost(bad));
        self.update_tile(pos.add(Vec2 { x: 0, y: 1 }), Ghost(bad.remove(
            pos.spec_add(Direction::Up.spec_delta()))));
        self.update_tile(pos.add(Vec2 { x: -1, y: 0 }), Ghost(bad.remove(
            pos.spec_add(Direction::Up.spec_delta())).remove(
            pos.spec_add(Direction::Down.spec_delta()))));
        self.update_tile(pos.add(Vec2 { x: 1, y: 0 }), Ghost(bad.remove(
            pos.spec_add(Direction::Up.spec_delta())).remove(
            pos.spec_add(Direction::Down.spec_delta())).remove(
            pos.spec_add(Direction::Left.spec_delta()))));
        proof {
            let leftover = bad.remove(pos.spec_add(Direction::Up.spec_delta()))
                .remove(pos.spec_add(Direction::Down.spec_delta()))
                .remove(pos.spec_add(Direction::Left.spec_delta()))
                .remove(pos.spec_add(Direction::Right.spec_delta()));
            assert(leftover =~= Set::<Vec2>::empty());
        }
    }
}

/// After the model changed at `pos` alone, every entry whose hull matched
/// the old model still matches, except possibly the entry at `pos` itself
/// and its four neighbors.
proof fn lemma_wf_after_point_change(
    map: TileMap,
    m_old: Map<Vec2, Tile>,
    pos: Vec2,
    bad: Set<Vec2>,
)
    requires
        bad == neighbor_cells(pos),
        pos.bounded(GRID_LIMIT as int),
        0 < map.spec_tile_size() <= TILE_SIZE_LIMIT,
        map.spec_entries().len() <= TILE_COUNT_LIMIT,
        unique_positions(map.spec_entries()),
        map.spec_player_start().bounded(GRID_LIMIT as int),
        forall|i: int| 0 <= i < map.spec_entries().len()
            ==> (#[trigger] map.spec_entries()[i].pos).bounded(GRID_LIMIT as int),
        forall|i: int| 0 <= i < map.spec_entries().len()
            ==> (#[trigger] map.spec_entries()[i].hull).wf(),
        forall|q: Vec2| q != pos ==> #[trigger] map.model().contains_key(q)
            == m_old.contains_key(q) && (m_old.contains_key(q) && q != pos
                ==> map.model()[q] == m_old[q]),
        forall|i: int| 0 <= i < map.spec_entries().len()
            && (#[trigger] map.spec_entries()[i]).pos != pos
            && !bad.contains(map.spec_entries()[i].pos)
            ==> hull_matches(
                map.spec_entries()[i].hull,
                map.spec_entries()[i].kind,
                map.spec_tile_size(),
                map.spec_entries()[i].pos,
                m_old,
            ),
        forall|i: int| 0 <= i < map.spec_entries().len()
            && (#[trigger] map.spec_entries()[i]).pos == pos
            ==> hull_matches(
                map.spec_entries()[i].hull,
                map.spec_entries()[i].kind,
                map.spec_tile_size(),
                map.spec_entries()[i].pos,
                map.model(),
            ),
    ensures
        map.wf_except(bad),
{
    assert forall|i: int| 0 <= i < map.spec_entries().len()
        && !bad.contains((#[trigger] map.spec_entries()[i]).pos)
        implies hull_matches(
            map.spec_entries()[i].hull,
            map.spec_entries()[i].kind,
            map.spec_tile_size(),
            map.spec_entries()[i].pos,
            map.model(),
        ) by {
        let q = map.spec_entries()[i].pos;
        if q != pos {
            assert forall|d: Direction| #![trigger d.spec_delta()] {
                let np = q.spec_add(d.spec_delta());
                map.model().contains_key(np) == m_old.contains_key(np)
                    && (map.model().contains_key(np) ==> map.model()[np] == m_old[np])
            } by {
                lemma_neighbor_symmetry(pos, q, d);
            }
            lemma_ignored_local(map.model(), m_old, q, map.spec_entries()[i].kind);
        }
    }
}


/// The bounding boxes of two bodies intersect (touching included): the
/// broad-phase test.
pub open spec fn boxes_intersect_v(a: HullView, b: HullView) -> bool {
    let xa = Vec2 { x: 1, y: 0 };
    let ya = Vec2 { x: 0, y: 1 };
    &&& spec_proj_min(a.points, xa) <= spec_proj_max(b.points, xa)
    &&& spec_proj_min(b.points, xa) <= spec_proj_max(a.points, xa)
    &&& spec_proj_min(a.points, ya) <= spec_proj_max(b.points, ya)
    &&& spec_proj_min(b.points, ya) <= spec_proj_max(a.points, ya)
}

/// The bounding boxes of two hulls intersect.
pub open spec fn boxes_intersect(a: ConvexHull, b: ConvexHull) -> bool {
    boxes_intersect_v(a.spec_view(), b.spec_view())
}

/// A contact with the push direction turned around: the same depth, seen
/// from the other body.
pub open spec fn neg_contact(c: Contact) -> Contact {
    Contact { amount: c.amount, axis: c.axis.spec_neg() }
}

impl TileMap {
    /// The contact the `i`-th tile produces against the queried body, if
    /// its box passes the broad phase and the narrow phase reports
    /// overlap; the contact pushes the tile side.
    pub open spec fn spec_tile_contact_v(self, query: HullView, i: int) -> Option<Contact> {
        let h = self.spec_entries()[i].hull;
        if boxes_intersect_v(query, h.spec_view()) {
            match spec_overlap_v(query, h.spec_view()) {
                Some(c) => Some(neg_contact(c)),
                None => None,
            }
        } else {
            None
        }
    }

    /// The contact the `i`-th tile produces against `query`.
    pub open spec fn spec_tile_contact(self, query: ConvexHull, i: int) -> Option<Contact> {
        self.spec_tile_contact_v(query.spec_view(), i)
    }

    /// The minimum-depth contact among the first `n` tiles; a later tile
    /// replaces the best only with a strictly smaller depth.
    pub open spec fn spec_map_scan_v(self, query: HullView, n: int) -> Option<Contact>
        decreases n,
    {
        if n <= 0 {
            None
        } else {
            let prev = self.spec_map_scan_v(query, n - 1);
            match self.spec_tile_contact_v(query, n - 1) {
                None => prev,
                Some(c) => match prev {
                    None => Some(c),
                    Some(b) => {
                        if spec_depth_lt(c.amount as int, c.axis, b.amount as int, b.axis) {
                            Some(c)
                        } else {
                            Some(b)
                        }
                    }
                },
            }
        }
    }

    /// The minimum-depth contact of two hulls among the first `n` tiles.
    pub open spec fn spec_map_scan(self, query: ConvexHull, n: int) -> Option<Contact> {
        self.spec_map_scan_v(query.spec_view(), n)
    }

    /// The single smallest-depth contact of the queried body against the
    /// whole map, pushing the map's tile.
    pub open spec fn spec_overlap_query_v(self, query: HullView) -> Option<Contact> {
        self.spec_map_scan_v(query, self.spec_entries().len() as int)
    }

    /// The single smallest-depth contact of `query` against the whole
    /// map, pushing the map's tile.
    pub open spec fn spec_overlap_query(self, query: ConvexHull) -> Option<Contact> {
        self.spec_overlap_query_v(query.spec_view())
    }

    /// Broad-phase box rejection per tile, then the separating-axis test,
    /// keeping the single contact of smallest depth. The returned contact
    /// pushes the tile that produced it; the caller moves the query shape
    /// by the opposite push.
    pub fn overlap(&self, other: &ConvexHull) -> (r: Option<Contact>)
        requires
            self.wf(),
            other.wf(),
        ensures
            r == self.spec_overlap_query(*other),
            r is Some ==> 0 < r->Some_0.amount <= 2 * PROJ_LIMIT as int,
            r is Some ==> r->Some_0.axis.bounded(AXIS_LIMIT as int)
                && !r->Some_0.axis.is_zero(),
    {
        let bounding_box = other.bounding_box();
        let mut best: Option<Contact> = None;
        let mut i: usize = 0;
        while i < self.tiles.len()
            invariant
                self.wf(),
                other.wf(),
                0 <= i <= self.spec_entries().len(),
                best == self.spec_map_scan(*other, i as int),
                best is Some ==> 0 < best->Some_0.amount <= 2 * PROJ_LIMIT as int,
                best is Some ==> best->Some_0.axis.bounded(AXIS_LIMIT as int)
                    && !best->Some_0.axis.is_zero(),
                bounding_box.left == spec_proj_min(other.spec_points(), Vec2 { x: 1, y: 0 }),
                bounding_box.right == spec_proj_max(other.spec_points(), Vec2 { x: 1, y: 0 }),
                bounding_box.top == spec_proj_min(other.spec_points(), Vec2 { x: 0, y: 1 }),
                bounding_box.bottom == spec_proj_max(other.spec_points(), Vec2 { x: 0, y: 1 }),
            decreases self.spec_entries().len() - i,
        {
            let hull = &self.tiles[i].hull;
            proof {
                assert(self.spec_entries()[i as int].hull.wf());
            }
            let tile_box = hull.bounding_box();
            if bounding_box.intersects(&tile_box) {
                match other.overlap(hull) {
                    Some(c) => {
                        let nc = Contact { amount: c.amount, axis: c.axis.neg() };
                        proof {
                            assert(nc == neg_contact(c));
                        }
                        best = match best {
                            None => Some(nc),
                            Some(b) => {
                                if depth_lt(&nc, &b) {
                                    Some(nc)
                                } else {
                                    Some(b)
                                }
                            }
                        };
                    }
                    None => {}
                }
            } else {
                proof {
                    assert(!boxes_intersect(*other, self.spec_entries()[i as int].hull));
                }
            }
            i = i + 1;
        }
        best
    }
}


/// The suppressed-normal list contains a direction's unit step exactly
/// when that direction suppresses.
proof fn lemma_ignored_membership(m: Map<Vec2, Tile>, pos: Vec2, kind: Tile, d: Direction)
    ensures
        spec_ignored_seq(m, pos, kind).contains(d.spec_delta()) == suppresses(m, pos, kind, d),
{
    let s0 = Seq::<Vec2>::empty();
    let s1 = ignored_step(m, pos, kind, s0, Direction::Up);
    let s2 = ignored_step(m, pos, kind, s1, Direction::Down);
    let s3 = ignored_step(m, pos, kind, s2, Direction::Left);
    let s4 = ignored_step(m, pos, kind, s3, Direction::Right);
    assert(Direction::Up.spec_delta() != Direction::Down.spec_delta());
    assert forall|x: Vec2, t: Seq<Vec2>, y: Vec2| #[trigger] t.push(x).contains(y)
        implies t.contains(y) || x == y by {
        let k = choose|k: int| 0 <= k < t.push(x).len() && t.push(x)[k] == y;
        if k < t.len() {
            assert(t[k] == y);
        }
    }
    if suppresses(m, pos, kind, d) {
        match d {
            Direction::Up => {
                assert(s1.last() == d.spec_delta());
                assert(s1.contains(d.spec_delta()));
            }
            Direction::Down => {
                assert(s2.last() == d.spec_delta());
                assert(s2.contains(d.spec_delta()));
            }
            Direction::Left => {
                assert(s3.last() == d.spec_delta());
                assert(s3.contains(d.spec_delta()));
            }
            Direction::Right => {
                assert(s4.last() == d.spec_delta());
                assert(s4.contains(d.spec_delta()));
            }
        }
        assert forall|x: Vec2, t: Seq<Vec2>, y: Vec2| t.contains(y)
            implies #[trigger] t.push(x).contains(y) by {
            let k = choose|k: int| 0 <= k < t.len() && t[k] == y;
            assert(t.push(x)[k] == y);
        }
        assert(s4.contains(d.spec_delta()));
    } else {
        let delta = d.spec_delta();
        assert(!s0.contains(delta));
        assert(!s1.contains(delta));
        assert(!s2.contains(delta));
        assert(!s3.contains(delta));
        assert(!s4.contains(delta));
    }
}

/// Mutual seam suppression: when two neighboring tiles are each solid
/// toward the other, each suppresses its normal along the shared edge,
/// and that is recorded in both stored polygons. Applied with the
/// opposite direction from the neighbor's side, the statement is
/// symmetric in the two tiles.
pub proof fn lemma_neighbor_suppression(map: TileMap, pos: Vec2, d: Direction)
    requires
        map.wf(),
        pos.bounded(GRID_LIMIT as int),
        map.model().contains_key(pos),
        map.model().contains_key(pos.spec_add(d.spec_delta())),
        map.model()[pos.spec_add(d.spec_delta())].spec_is_solid(d),
        map.model()[pos].spec_is_solid(d.spec_opposite()),
    ensures
        forall|i: int| 0 <= i < map.spec_entries().len()
            && (#[trigger] map.spec_entries()[i]).pos == pos
            ==> map.spec_entries()[i].hull.spec_ignored().contains(d.spec_delta()),
        forall|i: int| 0 <= i < map.spec_entries().len()
            && (#[trigger] map.spec_entries()[i]).pos == pos.spec_add(d.spec_delta())
            ==> map.spec_entries()[i].hull.spec_ignored().contains(
                d.spec_opposite().spec_delta()),
{
    let np = pos.spec_add(d.spec_delta());
    assert forall|i: int| 0 <= i < map.spec_entries().len()
        && (#[trigger] map.spec_entries()[i]).pos == pos
        implies map.spec_entries()[i].hull.spec_ignored().contains(d.spec_delta()) by {
        lemma_model_at(map.spec_entries(), i);
        assert(suppresses(map.model(), pos, map.spec_entries()[i].kind, d));
        lemma_ignored_membership(map.model(), pos, map.spec_entries()[i].kind, d);
    }
    assert forall|i: int| 0 <= i < map.spec_entries().len()
        && (#[trigger] map.spec_entries()[i]).pos == np
        implies map.spec_entries()[i].hull.spec_ignored().contains(
            d.spec_opposite().spec_delta()) by {
        lemma_model_at(map.spec_entries(), i);
        let back = d.spec_opposite();
        assert(np.spec_add(back.spec_delta()) == pos);
        assert(suppresses(map.model(), np, map.spec_entries()[i].kind, back));
        lemma_ignored_membership(map.model(), np, map.spec_entries()[i].kind, back);
    }
}

/// A tile with no present neighbor toward `d` keeps its normal along
/// that edge collidable: removing a neighbor restores the seam.
pub proof fn lemma_absent_neighbor_not_suppressed(map: TileMap, pos: Vec2, d: Direction)
    requires
        map.wf(),
        !map.model().contains_key(pos.spec_add(d.spec_delta())),
    ensures
        forall|i: int| 0 <= i < map.spec_entries().len()
            && (#[trigger] map.spec_entries()[i]).pos == pos
            ==> !map.spec_entries()[i].hull.spec_ignored().contains(d.spec_delta()),
{
    assert forall|i: int| 0 <= i < map.spec_entries().len()
        && (#[trigger] map.spec_entries()[i]).pos == pos
        implies !map.spec_entries()[i].hull.spec_ignored().contains(d.spec_delta()) by {
        lemma_model_at(map.spec_entries(), i);
        assert(!suppresses(map.model(), pos, map.spec_entries()[i].kind, d));
        lemma_ignored_membership(map.model(), pos, map.spec_entries()[i].kind, d);
    }
}


/// The minimum-depth law of the map query: a reported contact comes from
/// one tile that passed both phases, and no tile's contact is strictly
/// shallower.
pub proof fn lemma_map_overlap_minimal(map: TileMap, query: ConvexHull)
    requires
        map.wf(),
        query.wf(),
    ensures
        match map.spec_overlap_query(query) {
            Some(c) => {
                &&& exists|i: int| 0 <= i < map.spec_entries().len()
                    && #[trigger] map.spec_tile_contact(query, i) == Some(c)
                &&& forall|i: int| 0 <= i < map.spec_entries().len()
                    && (#[trigger] map.spec_tile_contact(query, i)) is Some
                    ==> spec_depth_le(
                        c.amount as int,
                        c.axis,
                        map.spec_tile_contact(query, i)->Some_0.amount as int,
                        map.spec_tile_contact(query, i)->Some_0.axis,
                    )
            },
            None => forall|i: int| 0 <= i < map.spec_entries().len()
                ==> #[trigger] map.spec_tile_contact(query, i) is None,
        },
{
    lemma_map_scan_minimal(map, query, map.spec_entries().len() as int);
}

/// A tile's reported contact has a nonzero axis and non-negative depth.
proof fn lemma_tile_contact_shape(map: TileMap, query: ConvexHull, i: int)
    requires
        map.wf(),
        query.wf(),
        0 <= i < map.spec_entries().len(),
        map.spec_tile_contact(query, i) is Some,
    ensures
        map.spec_tile_contact(query, i)->Some_0.axis.spec_sq() > 0,
        map.spec_tile_contact(query, i)->Some_0.amount >= 0,
{
    let hull = map.spec_entries()[i].hull;
    assert(hull.wf());
    crate::hull::lemma_overlap_minimal(query, hull);
    let inner = crate::hull::spec_overlap(query, hull);
    let c = inner->Some_0;
    let w = choose|w: int| 0 <= w < crate::hull::axes_all(query, hull).len()
        && !(#[trigger] crate::hull::suppressed_at(query, hull, w))
        && !crate::hull::gap_at(query, hull, w)
        && c == crate::hull::cand_at(query, hull, w);
    crate::hull::lemma_cand_shape(query, hull, w);
    let nc = neg_contact(c);
    assert(nc.axis.spec_sq() == c.axis.spec_sq()) by (nonlinear_arith)
        requires nc.axis.x == -c.axis.x, nc.axis.y == -c.axis.y;
}

/// The scan over the first `n` tiles keeps a shallowest contact.
proof fn lemma_map_scan_minimal(map: TileMap, query: ConvexHull, n: int)
    requires
        map.wf(),
        query.wf(),
        0 <= n <= map.spec_entries().len(),
    ensures
        match map.spec_map_scan(query, n) {
            Some(c) => {
                &&& exists|i: int| 0 <= i < n
                    && #[trigger] map.spec_tile_contact(query, i) == Some(c)
                &&& forall|i: int| 0 <= i < n
                    && (#[trigger] map.spec_tile_contact(query, i)) is Some
                    ==> spec_depth_le(
                        c.amount as int,
                        c.axis,
                        map.spec_tile_contact(query, i)->Some_0.amount as int,
                        map.spec_tile_contact(query, i)->Some_0.axis,
                    )
                &&& c.axis.spec_sq() > 0
                &&& c.amount >= 0
            },
            None => forall|i: int| 0 <= i < n
                ==> #[trigger] map.spec_tile_contact(query, i) is None,
        },
    decreases n,
{
    if n > 0 {
        lemma_map_scan_minimal(map, query, n - 1);
        let prev = map.spec_map_scan(query, n - 1);
        match map.spec_tile_contact(query, n - 1) {
            None => {}
            Some(cnew) => {
                lemma_tile_contact_shape(map, query, n - 1);
                match prev {
                    None => {}
                    Some(b) => {
                        if spec_depth_lt(cnew.amount as int, cnew.axis, b.amount as int, b.axis) {
                            assert forall|i: int| 0 <= i < n
                                && (#[trigger] map.spec_tile_contact(query, i)) is Some
                                implies spec_depth_le(
                                    cnew.amount as int,
                                    cnew.axis,
                                    map.spec_tile_contact(query, i)->Some_0.amount as int,
                                    map.spec_tile_contact(query, i)->Some_0.axis,
                                ) by {
                                let ci = map.spec_tile_contact(query, i)->Some_0;
                                lemma_tile_contact_shape(map, query, i);
                                if i < n - 1 {
                                    lemma_depth_lt_le_chain(
                                        cnew.amount as int, cnew.axis,
                                        b.amount as int, b.axis,
                                        ci.amount as int, ci.axis,
                                    );
                                }
                            }
                        } else {
                            assert(spec_depth_le(
                                b.amount as int, b.axis, cnew.amount as int, cnew.axis));
                        }
                    }
                }
            }
        }
    }
}

/// Depth comparison chains across a strictly shallower middle contact.
proof fn lemma_depth_lt_le_chain(
    a1: int, x1: Vec2,
    a2: int, x2: Vec2,
    a3: int, x3: Vec2,
)
    requires
        x1.spec_sq() > 0,
        x2.spec_sq() > 0,
        x3.spec_sq() > 0,
        a1 >= 0,
        a2 >= 0,
        a3 >= 0,
        spec_depth_lt(a1, x1, a2, x2),
        crate::hull::spec_depth_le(a2, x2, a3, x3),
    ensures
        crate::hull::spec_depth_le(a1, x1, a3, x3),
{
    let p1 = a1 * a1;
    let p2 = a2 * a2;
    let p3 = a3 * a3;
    assert(p1 * x3.spec_sq() <= p3 * x1.spec_sq()) by (nonlinear_arith)
        requires
            p1 * x2.spec_sq() < p2 * x1.spec_sq(),
            p2 * x3.spec_sq() <= p3 * x2.spec_sq(),
            x1.spec_sq() > 0,
            x2.spec_sq() > 0,
            x3.spec_sq() > 0,
            p1 >= 0,
            p2 >= 0,
            p3 >= 0;
}


/// The least cell x-coordinate among the first `n` entries.
pub open spec fn spec_min_cell_x(s: Seq<TileEntry>, n: int) -> int
    decreases n,
{
    if n <= 1 {
        s[0].pos.x as int
    } else {
        let prev = spec_min_cell_x(s, n - 1);
        if s[n - 1].pos.x < prev { s[n - 1].pos.x as int } else { prev }
    }
}

/// The greatest cell x-coordinate among the first `n` entries.
pub open spec fn spec_max_cell_x(s: Seq<TileEntry>, n: int) -> int
    decreases n,
{
    if n <= 1 {
        s[0].pos.x as int
    } else {
        let prev = spec_max_cell_x(s, n - 1);
        if s[n - 1].pos.x > prev { s[n - 1].pos.x as int } else { prev }
    }
}

/// The least cell y-coordinate among the first `n` entries.
pub open spec fn spec_min_cell_y(s: Seq<TileEntry>, n: int) -> int
    decreases n,
{
    if n <= 1 {
        s[0].pos.y as int
    } else {
        let prev = spec_min_cell_y(s, n - 1);
        if s[n - 1].pos.y < prev { s[n - 1].pos.y as int } else { prev }
    }
}

/// The greatest cell y-coordinate among the first `n` entries.
pub open spec fn spec_max_cell_y(s: Seq<TileEntry>, n: int) -> int
    decreases n,
{
    if n <= 1 {
        s[0].pos.y as int
    } else {
        let prev = spec_max_cell_y(s, n - 1);
        if s[n - 1].pos.y > prev { s[n - 1].pos.y as int } else { prev }
    }
}

impl TileMap {
    /// The box spanned by the occupied cells, in subunits: from the
    /// smallest cell corner to one full cell past the largest, all edges
    /// collidable. The map must hold at least one tile.
    pub fn bounding_box(&self) -> (r: AABB)
        requires
            self.wf(),
            self.spec_entries().len() >= 1,
        ensures
            r.left == spec_min_cell_x(self.spec_entries(), self.spec_entries().len() as int)
                * self.spec_tile_size(),
            r.right == (spec_max_cell_x(self.spec_entries(), self.spec_entries().len() as int)
                + 1) * self.spec_tile_size(),
            r.top == spec_min_cell_y(self.spec_entries(), self.spec_entries().len() as int)
                * self.spec_tile_size(),
            r.bottom == (spec_max_cell_y(self.spec_entries(), self.spec_entries().len() as int)
                + 1) * self.spec_tile_size(),
            r.edge_left && r.edge_right && r.edge_top && r.edge_bottom,
    {
        let ghost s = self.spec_entries();
        let n = self.tiles.len();
        let first = self.tiles[0].pos;
        let mut min_x = first.x;
        let mut max_x = first.x;
        let mut min_y = first.y;
        let mut max_y = first.y;
        let mut i: usize = 1;
        while i < n
            invariant
                s == self.spec_entries(),
                n == s.len(),
                1 <= i <= n,
                self.wf(),
                min_x == spec_min_cell_x(s, i as int),
                max_x == spec_max_cell_x(s, i as int),
                min_y == spec_min_cell_y(s, i as int),
                max_y == spec_max_cell_y(s, i as int),
                -GRID_LIMIT <= min_x <= max_x <= GRID_LIMIT,
                -GRID_LIMIT <= min_y <= max_y <= GRID_LIMIT,
            decreases n - i,
        {
            let p = self.tiles[i].pos;
            proof {
                assert(s[i as int].pos.bounded(GRID_LIMIT as int));
            }
            if p.x < min_x {
                min_x = p.x;
            }
            if p.x > max_x {
                max_x = p.x;
            }
            if p.y < min_y {
                min_y = p.y;
            }
            if p.y > max_y {
                max_y = p.y;
            }
            i = i + 1;
        }
        let size = self.tile_size;
        proof {
            assert(
                -0x80_0000_0000 <= min_x * size <= 0x80_0000_0000
                && -0x80_0000_0000 <= (max_x + 1) * size <= 0x100_0000_0000
                && -0x80_0000_0000 <= min_y * size <= 0x80_0000_0000
                && -0x80_0000_0000 <= (max_y + 1) * size <= 0x100_0000_0000
            ) by (nonlinear_arith)
                requires
                    -0x8_0000 <= min_x <= 0x8_0000,
                    -0x8_0000 <= max_x <= 0x8_0000,
                    -0x8_0000 <= min_y <= 0x8_0000,
                    -0x8_0000 <= max_y <= 0x8_0000,
                    0 < size <= 0x10_0000;
        }
        AABB {
            left: min_x * size,
            right: (max_x + 1) * size,
            top: min_y * size,
            bottom: (max_y + 1) * size,
            edge_left: true,
            edge_right: true,
            edge_top: true,
            edge_bottom: true,
        }
    }
}


} // verus!
