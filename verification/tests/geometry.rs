use runplusplus::vec2::Vec2;
use runplusplus::aabb::AABB;
use runplusplus::hull::ConvexHull;
use runplusplus::math::{gcd64, isqrt64, tdiv64, tdiv_away64};
use runplusplus::tile::{Tile, Direction};

fn square(cx: i64, cy: i64, half: i64) -> ConvexHull {
    let pts = [
        Vec2 { x: cx - half, y: cy - half },
        Vec2 { x: cx + half, y: cy - half },
        Vec2 { x: cx + half, y: cy + half },
        Vec2 { x: cx - half, y: cy + half },
    ];
    ConvexHull::from_points(&pts)
}

#[test]
fn gcd_and_isqrt_basics() {
    assert_eq!(gcd64(12, 18), 6);
    assert_eq!(gcd64(0, 7), 7);
    assert_eq!(gcd64(7, 0), 7);
    assert_eq!(isqrt64(0), 0);
    assert_eq!(isqrt64(17), 4);
    assert_eq!(isqrt64(16), 4);
    assert_eq!(isqrt64(u64::MAX), 0xffff_ffff);
    assert_eq!(tdiv64(-7, 2), -3);
    assert_eq!(tdiv64(7, 2), 3);
    assert_eq!(tdiv_away64(7, 2), 4);
    assert_eq!(tdiv_away64(-7, 2), -4);
}

#[test]
fn separated_bounding_boxes_no_overlap() {
    // Disjoint on x.
    let a = square(0, 0, 128);
    let b = square(1000, 0, 128);
    assert!(a.overlap(&b).is_none());
    assert!(b.overlap(&a).is_none());
    // Disjoint on y only.
    let c = square(0, -1000, 128);
    assert!(a.overlap(&c).is_none());
    // A skewed polygon away from a square.
    let pts = [
        Vec2 { x: 2000, y: 0 },
        Vec2 { x: 2600, y: 200 },
        Vec2 { x: 2200, y: 700 },
    ];
    let tri = ConvexHull::from_points(&pts);
    assert!(a.overlap(&tri).is_none());
    assert!(tri.overlap(&a).is_none());
}

#[test]
fn sat_depth_of_half_overlapping_unit_squares() {
    // Unit squares (256 subunits wide) with centers half a unit apart:
    // the minimum translation is half a unit along x.
    let a = square(0, 0, 128);
    let b = square(128, 0, 128);
    let c = a.overlap(&b).expect("squares overlap");
    assert_eq!(c.amount, 128);
    assert_eq!(c.axis, Vec2 { x: -1, y: 0 });
}

#[test]
fn touching_squares_report_no_overlap() {
    // Two unit squares sharing a full edge, the shared normal ignored on
    // both sides, report no contact.
    let mut a = square(0, 0, 128);
    let mut b = square(256, 0, 128);
    a.ignore_normal(Vec2 { x: 1, y: 0 });
    b.ignore_normal(Vec2 { x: -1, y: 0 });
    assert!(a.overlap(&b).is_none());
}

#[test]
fn suppressed_normals_silence_penetrating_contact() {
    // The squares overlap by a quarter unit, but every candidate normal
    // is suppressed, so no contact is reported.
    let mut a = square(0, 0, 128);
    let b = square(192, 0, 128);
    assert!(a.overlap(&b).is_some());
    a.ignore_normal(Vec2 { x: 1, y: 0 });
    a.ignore_normal(Vec2 { x: 0, y: 1 });
    a.ignore_normal(Vec2 { x: 0, y: -1 });
    assert!(a.overlap(&b).is_none());
}

#[test]
fn aabb_edge_flag_gating() {
    // The left push is shallower, but the left edge is not collidable,
    // so the deeper downward push is returned instead.
    let mut a = AABB::new(0, 256, 0, 256);
    a.edge_left = false;
    let other = AABB::new(-200, 40, -200, 200);
    let (depth, mtv) = a.overlap(&other).expect("boxes overlap");
    assert_eq!(depth, 200);
    assert_eq!(mtv, Vec2 { x: 0, y: 200 });

    // With all edges collidable the shallow left push wins.
    let a2 = AABB::new(0, 256, 0, 256);
    let (depth2, mtv2) = a2.overlap(&other).expect("boxes overlap");
    assert_eq!(depth2, 40);
    assert_eq!(mtv2, Vec2 { x: 40, y: 0 });
}

#[test]
fn aabb_intersects_and_contains() {
    let a = AABB::new(0, 100, 0, 100);
    let b = AABB::new(100, 200, 0, 100);
    assert!(a.intersects(&b));
    let c = AABB::new(101, 200, 0, 100);
    assert!(!a.intersects(&c));
    assert!(a.contains(Vec2 { x: 50, y: 50 }));
    assert!(!a.contains(Vec2 { x: 100, y: 50 }));
}

#[test]
fn translate_round_trip_is_exact() {
    let mut h = square(0, 0, 128);
    let before: Vec<Vec2> = h.get_points().to_vec();
    h.translate(Vec2 { x: 12345, y: -678 });
    h.translate(Vec2 { x: -12345, y: 678 });
    assert_eq!(h.get_points(), &before[..]);
}

#[test]
fn box_hull_conversion_marks_ignored_edges() {
    let mut b = AABB::new(0, 256, 0, 256);
    b.edge_left = false;
    b.edge_bottom = false;
    let h = b.to_convex_hull();
    assert_eq!(h.get_points().len(), 4);
    assert_eq!(h.get_axes(), &[Vec2 { x: 1, y: 0 }, Vec2 { x: 0, y: 1 }][..]);
    assert_eq!(
        h.get_ignored_normals(),
        &[Vec2 { x: 1, y: 0 }, Vec2 { x: 0, y: -1 }][..]
    );
}

#[test]
fn wedge_solidity_and_open_side() {
    let w = Tile::WedgeUpLeft;
    assert_eq!(w.is_solid(Direction::Down), false);
    assert_eq!(w.is_solid(Direction::Left), true);
    assert_eq!(w.is_solid(Direction::Right), false);
    assert_eq!(w.is_solid(Direction::Up), true);

    // The triangle fills the half of the cell below the diagonal; a
    // probe in the open half passes through, one at the filled right
    // edge does not.
    let hull = w.get_convex_hull(16384);
    let open_probe = square(2000, 2000, 1000);
    assert!(hull.overlap(&open_probe).is_none());
    let filled_probe = square(16000, 8000, 1000);
    assert!(hull.overlap(&filled_probe).is_some());
}

#[test]
fn wedge_axes_are_the_three_edge_normals() {
    let hull = Tile::WedgeUpLeft.get_convex_hull(16384);
    assert_eq!(
        hull.get_axes(),
        &[
            Vec2 { x: 1, y: 0 },
            Vec2 { x: 0, y: 1 },
            Vec2 { x: -1, y: -1 },
        ][..]
    );
}

#[test]
fn square_tile_axes_deduplicate() {
    let hull = Tile::Square.get_convex_hull(16384);
    assert_eq!(
        hull.get_axes(),
        &[Vec2 { x: 0, y: -1 }, Vec2 { x: 1, y: 0 }][..]
    );
}

#[test]
fn aabb_tie_break_prefers_the_x_axis() {
    // Equal 128-deep penetrations on both axes: the x push wins the tie.
    let a = AABB::new(0, 256, 0, 256);
    let other = AABB::new(128, 384, 128, 384);
    let (depth, mtv) = a.overlap(&other).expect("boxes overlap");
    assert_eq!(depth, 128);
    assert_eq!(mtv, Vec2 { x: -128, y: 0 });
}

#[test]
fn normals_as_lines_skips_suppressed_edges() {
    let mut h = square(0, 0, 128);
    h.ignore_normal(Vec2 { x: 1, y: 0 });
    let lines = h.get_normals_as_lines(100);
    // Four edges, one suppressed.
    assert_eq!(lines.len(), 3);
    // The top edge's line: midpoint straight up by the given length.
    assert_eq!(lines[0], (Vec2 { x: 0, y: -128 }, Vec2 { x: 0, y: -228 }));
}
