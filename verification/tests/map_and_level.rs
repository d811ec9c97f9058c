use runplusplus::vec2::Vec2;
use runplusplus::tile::{Tile, Direction};
use runplusplus::tile_map::TileMap;

const SIZE: i64 = 16384; // 64 world units

#[test]
fn neighbor_suppression_is_symmetric_and_reactive() {
    let mut map = TileMap::new(SIZE);
    map.add_tile(Vec2 { x: 0, y: 0 }, Tile::Square);
    map.add_tile(Vec2 { x: 1, y: 0 }, Tile::Square);

    let left = map.hull_at(Vec2 { x: 0, y: 0 }).expect("tile present");
    assert!(left.get_ignored_normals().contains(&Vec2 { x: 1, y: 0 }));
    let right = map.hull_at(Vec2 { x: 1, y: 0 }).expect("tile present");
    assert!(right.get_ignored_normals().contains(&Vec2 { x: -1, y: 0 }));

    map.remove_tile(Vec2 { x: 1, y: 0 });
    let left = map.hull_at(Vec2 { x: 0, y: 0 }).expect("tile present");
    assert!(left.get_ignored_normals().is_empty());
    assert!(map.hull_at(Vec2 { x: 1, y: 0 }).is_none());
}

#[test]
fn wedge_open_side_is_not_suppressed() {
    // A square below a wedge that is open downward: the wedge is not
    // solid against downward travel, so neither side suppresses the
    // shared edge.
    let mut map = TileMap::new(SIZE);
    map.add_tile(Vec2 { x: 0, y: 0 }, Tile::WedgeUpLeft);
    map.add_tile(Vec2 { x: 0, y: 1 }, Tile::Square);
    let wedge = map.hull_at(Vec2 { x: 0, y: 0 }).expect("tile present");
    // The wedge is solid downward-facing (travel Up hits it), and the
    // square is solid in every direction, so the seam toward the square
    // is suppressed on the wedge's side.
    assert!(wedge.get_ignored_normals().contains(&Vec2 { x: 0, y: 1 }));
    let below = map.hull_at(Vec2 { x: 0, y: 1 }).expect("tile present");
    assert!(below.get_ignored_normals().contains(&Vec2 { x: 0, y: -1 }));

    // But a tile to the wedge's right: travel Left into the wedge hits
    // its filled right edge; travel Right into the square is solid, so
    // both suppress. Travel toward the wedge's open left side from a
    // left neighbor is not suppressed on the neighbor's side.
    map.add_tile(Vec2 { x: -1, y: 0 }, Tile::Square);
    let left_neighbor = map.hull_at(Vec2 { x: -1, y: 0 }).expect("tile present");
    // The wedge is not solid against rightward travel (its left side is
    // open), so the left neighbor keeps its right edge collidable.
    assert!(!left_neighbor.get_ignored_normals().contains(&Vec2 { x: 1, y: 0 }));
}

#[test]
fn replacing_a_tile_overrides_it() {
    let mut map = TileMap::new(SIZE);
    map.add_tile(Vec2 { x: 3, y: 4 }, Tile::Square);
    map.add_tile(Vec2 { x: 3, y: 4 }, Tile::WedgeDownRight);
    assert_eq!(map.tile_at(Vec2 { x: 3, y: 4 }), Some(Tile::WedgeDownRight));
    assert_eq!(map.tile_count(), 1);
}

#[test]
fn map_overlap_returns_smallest_depth_contact() {
    let mut map = TileMap::new(SIZE);
    map.add_tile(Vec2 { x: 0, y: 0 }, Tile::Square);
    // A unit probe square penetrating the tile's top edge slightly.
    let pts = [
        Vec2 { x: 4000, y: -200 },
        Vec2 { x: 4512, y: -200 },
        Vec2 { x: 4512, y: 312 },
        Vec2 { x: 4000, y: 312 },
    ];
    let probe = runplusplus::hull::ConvexHull::from_points(&pts);
    let c = map.overlap(&probe).expect("contact");
    // The contact pushes the tile downward, away from the probe.
    assert_eq!(c.axis, Vec2 { x: 0, y: 1 });
    assert_eq!(c.amount, 312);
    // Out of range: no contact.
    let far = [
        Vec2 { x: 40000, y: 40000 },
        Vec2 { x: 40512, y: 40000 },
        Vec2 { x: 40512, y: 40512 },
        Vec2 { x: 40000, y: 40512 },
    ];
    let far_probe = runplusplus::hull::ConvexHull::from_points(&far);
    assert!(map.overlap(&far_probe).is_none());
}

#[test]
fn parse_simple_level() {
    let text = b"PLAYER_START 2 3\nTILE \"Square\" 0:0 1:0 -1:2";
    let map = TileMap::from_str(text, SIZE).expect("parses");
    assert_eq!(map.get_player_start(), Vec2 { x: 2, y: 3 });
    assert_eq!(map.tile_count(), 3);
    assert_eq!(map.tile_at(Vec2 { x: 0, y: 0 }), Some(Tile::Square));
    assert_eq!(map.tile_at(Vec2 { x: 1, y: 0 }), Some(Tile::Square));
    assert_eq!(map.tile_at(Vec2 { x: -1, y: 2 }), Some(Tile::Square));
    // The two adjacent squares suppressed their seam during parsing.
    let h = map.hull_at(Vec2 { x: 0, y: 0 }).expect("present");
    assert!(h.get_ignored_normals().contains(&Vec2 { x: 1, y: 0 }));
}

#[test]
fn parse_all_wedge_kinds() {
    let text = b"TILE \"WedgeUpLeft\" 0:0\nTILE \"WedgeUpRight\" 1:0\nTILE \"WedgeDownLeft\" 2:0\nTILE \"WedgeDownRight\" 3:0\nPLAYER_START -4 -5";
    let map = TileMap::from_str(text, SIZE).expect("parses");
    assert_eq!(map.tile_at(Vec2 { x: 0, y: 0 }), Some(Tile::WedgeUpLeft));
    assert_eq!(map.tile_at(Vec2 { x: 1, y: 0 }), Some(Tile::WedgeUpRight));
    assert_eq!(map.tile_at(Vec2 { x: 2, y: 0 }), Some(Tile::WedgeDownLeft));
    assert_eq!(map.tile_at(Vec2 { x: 3, y: 0 }), Some(Tile::WedgeDownRight));
    assert_eq!(map.get_player_start(), Vec2 { x: -4, y: -5 });
}

#[test]
fn parse_rejects_unknown_directive() {
    assert!(TileMap::from_str(b"BOGUS 1 2", SIZE).is_none());
}

#[test]
fn parse_rejects_unknown_tile_name() {
    assert!(TileMap::from_str(b"TILE \"Pentagon\" 0:0", SIZE).is_none());
}

#[test]
fn parse_rejects_malformed_coordinate() {
    assert!(TileMap::from_str(b"TILE \"Square\" 1:a", SIZE).is_none());
    assert!(TileMap::from_str(b"TILE \"Square\" 1", SIZE).is_none());
    assert!(TileMap::from_str(b"TILE \"Square\" :2", SIZE).is_none());
    assert!(TileMap::from_str(b"TILE \"Square\" 1:", SIZE).is_none());
}

#[test]
fn parse_rejects_short_player_start() {
    assert!(TileMap::from_str(b"PLAYER_START 1", SIZE).is_none());
    assert!(TileMap::from_str(b"PLAYER_START", SIZE).is_none());
}

#[test]
fn parse_rejects_out_of_range_coordinate() {
    assert!(TileMap::from_str(b"TILE \"Square\" 99999999999:0", SIZE).is_none());
    assert!(TileMap::from_str(b"PLAYER_START 0 -99999999999999999999999", SIZE).is_none());
}

#[test]
fn parse_skips_blank_lines_and_bare_tile() {
    let text = b"\n\nTILE\nPLAYER_START 1 1\n";
    let map = TileMap::from_str(text, SIZE).expect("parses");
    assert_eq!(map.tile_count(), 0);
    assert_eq!(map.get_player_start(), Vec2 { x: 1, y: 1 });
}

#[test]
fn save_renders_expected_text() {
    let mut map = TileMap::new(SIZE);
    map.set_player_start(Vec2 { x: 2, y: 3 });
    map.add_tile(Vec2 { x: 0, y: 0 }, Tile::Square);
    map.add_tile(Vec2 { x: -1, y: 5 }, Tile::Square);
    map.add_tile(Vec2 { x: 7, y: 7 }, Tile::WedgeDownLeft);
    let out = map.save();
    assert_eq!(
        out,
        b"PLAYER_START 2 3\nTILE \"Square\" 0:0 -1:5\nTILE \"WedgeDownLeft\" 7:7".to_vec()
    );
}

#[test]
fn save_then_parse_round_trips() {
    let mut map = TileMap::new(SIZE);
    map.set_player_start(Vec2 { x: -9, y: 12 });
    map.add_tile(Vec2 { x: 0, y: 0 }, Tile::Square);
    map.add_tile(Vec2 { x: 1, y: 0 }, Tile::WedgeUpRight);
    map.add_tile(Vec2 { x: 0, y: -3 }, Tile::WedgeDownRight);
    let out = map.save();
    let back = TileMap::from_str(out.as_slice(), SIZE).expect("round trip parses");
    assert_eq!(back.get_player_start(), Vec2 { x: -9, y: 12 });
    assert_eq!(back.tile_count(), 3);
    assert_eq!(back.tile_at(Vec2 { x: 0, y: 0 }), Some(Tile::Square));
    assert_eq!(back.tile_at(Vec2 { x: 1, y: 0 }), Some(Tile::WedgeUpRight));
    assert_eq!(back.tile_at(Vec2 { x: 0, y: -3 }), Some(Tile::WedgeDownRight));
}

#[test]
fn direction_tables() {
    assert_eq!(Direction::Up.opposite(), Direction::Down);
    assert_eq!(Direction::Left.opposite(), Direction::Right);
    assert_eq!(Direction::Right.as_delta(), Vec2 { x: 1, y: 0 });
    assert_eq!(Direction::Up.as_delta(), Vec2 { x: 0, y: -1 });
    let all = Direction::all();
    assert_eq!(all[0], Direction::Up);
    assert_eq!(all[3], Direction::Right);
}

#[test]
fn square_is_solid_everywhere() {
    for d in [Direction::Up, Direction::Down, Direction::Left, Direction::Right] {
        assert!(Tile::Square.is_solid(d));
    }
    assert!(!Tile::WedgeUpRight.is_solid(Direction::Down));
    assert!(!Tile::WedgeUpRight.is_solid(Direction::Left));
    assert!(!Tile::WedgeDownLeft.is_solid(Direction::Up));
    assert!(!Tile::WedgeDownRight.is_solid(Direction::Left));
    assert!(Tile::WedgeDownLeft.is_solid(Direction::Left));
}

#[test]
fn map_bounding_box_spans_occupied_cells() {
    let mut map = TileMap::new(SIZE);
    map.add_tile(Vec2 { x: -1, y: 0 }, Tile::Square);
    map.add_tile(Vec2 { x: 2, y: 3 }, Tile::WedgeUpLeft);
    let b = map.bounding_box();
    assert_eq!(b.left, -SIZE);
    assert_eq!(b.right, 3 * SIZE);
    assert_eq!(b.top, 0);
    assert_eq!(b.bottom, 4 * SIZE);
}
