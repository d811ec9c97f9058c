use runplusplus::vec2::Vec2;
use runplusplus::tile::Tile;
use runplusplus::tile_map::TileMap;
use runplusplus::player::{Player, PlayerCommand, min_contact};

const SIZE: i64 = 16384; // 64 world units per tile

fn ground_map() -> TileMap {
    let mut map = TileMap::new(SIZE);
    map.add_tile(Vec2 { x: 0, y: 0 }, Tile::Square);
    map
}

/// Step until the body reports ground contact, returning how many ticks
/// it took.
fn settle(player: &mut Player, map: &TileMap, max_ticks: usize) -> usize {
    let mut ticks = 0;
    while ticks < max_ticks {
        player.update(map, &[]);
        ticks += 1;
        if player.get_ground_normal().is_some() && player.get_velocity().y == 0 {
            return ticks;
        }
    }
    ticks
}

#[test]
fn dropped_player_lands_on_the_tile() {
    let map = ground_map();
    // 24x48-unit body dropped from above the tile with no horizontal
    // velocity.
    let mut player = Player::new(Vec2 { x: 8192, y: -8000 });
    let ticks = settle(&mut player, &map, 2000);
    assert!(ticks < 2000, "the body never landed");
    assert_eq!(player.get_ground_normal(), Some(Vec2 { x: 0, y: -1 }));
    // Resting: vertical velocity is damped to zero at the contact, and
    // the box bottom sits at the tile's top edge.
    assert_eq!(player.get_velocity().y, 0);
    let bottom = player.get_center().y + 24 * 256;
    assert!(bottom.abs() <= 16, "body sank or floats: bottom at {}", bottom);
    assert_eq!(player.get_velocity().x, 0);
}

#[test]
fn resolution_leaves_no_overlap_when_converged() {
    let map = ground_map();
    let mut player = Player::new(Vec2 { x: 8192, y: -4000 });
    for _ in 0..600 {
        let converged = player.update(&map, &[]);
        if converged {
            assert!(map.overlap(player.get_collision()).is_none());
            assert!(min_contact(&map, &[], player.get_collision()).is_none());
        }
    }
}

#[test]
fn ground_and_wall_are_never_both_held() {
    // A small pit: floor plus walls on both sides.
    let mut map = TileMap::new(SIZE);
    map.add_tile(Vec2 { x: -1, y: 0 }, Tile::Square);
    map.add_tile(Vec2 { x: 0, y: 1 }, Tile::Square);
    map.add_tile(Vec2 { x: 1, y: 0 }, Tile::Square);
    let mut player = Player::new(Vec2 { x: 8192, y: -2000 });
    for i in 0..600 {
        if i % 7 == 0 {
            player.submit_command(PlayerCommand::MoveLeft);
        }
        if i % 11 == 0 {
            player.submit_command(PlayerCommand::MoveRight);
        }
        if i % 13 == 0 {
            player.submit_command(PlayerCommand::Jump);
        }
        if i % 17 == 0 {
            player.submit_command(PlayerCommand::StopJump);
        }
        player.update(&map, &[]);
        assert!(
            !(player.get_ground_normal().is_some() && player.get_wall_normal().is_some()),
            "ground and wall normal held at once on tick {}",
            i
        );
    }
}

#[test]
fn move_command_accelerates_horizontally() {
    let map = TileMap::new(SIZE);
    let mut player = Player::new(Vec2 { x: 0, y: 0 });
    player.submit_command(PlayerCommand::MoveRight);
    player.update(&map, &[]);
    assert!(player.get_velocity().x > 0);
    let mut player = Player::new(Vec2 { x: 0, y: 0 });
    player.submit_command(PlayerCommand::MoveLeft);
    player.update(&map, &[]);
    assert!(player.get_velocity().x < 0);
}

#[test]
fn grounded_jump_launches_upward() {
    let map = ground_map();
    let mut player = Player::new(Vec2 { x: 8192, y: -2000 });
    let ticks = settle(&mut player, &map, 2000);
    assert!(ticks < 2000);
    player.submit_command(PlayerCommand::Jump);
    let mut jumped = false;
    for _ in 0..4 {
        player.update(&map, &[]);
        if player.get_velocity().y < -50000 {
            jumped = true;
            break;
        }
    }
    assert!(jumped, "the jump never fired");
}

#[test]
fn stop_jump_cancels_a_pending_jump() {
    let map = ground_map();
    let mut player = Player::new(Vec2 { x: 8192, y: -2000 });
    settle(&mut player, &map, 2000);
    player.submit_command(PlayerCommand::Jump);
    player.submit_command(PlayerCommand::StopJump);
    for _ in 0..4 {
        player.update(&map, &[]);
        assert!(player.get_velocity().y > -1000);
    }
}

#[test]
fn gravity_accelerates_a_free_fall() {
    let map = TileMap::new(SIZE);
    let mut player = Player::new(Vec2 { x: 0, y: 0 });
    player.update(&map, &[]);
    let v1 = player.get_velocity().y;
    player.update(&map, &[]);
    let v2 = player.get_velocity().y;
    assert!(v1 > 0);
    assert!(v2 > v1);
}

#[test]
fn standalone_obstacles_are_part_of_the_query() {
    let map = TileMap::new(SIZE);
    // A free platform polygon below the player.
    let pts = [
        Vec2 { x: 0, y: 8192 },
        Vec2 { x: 20000, y: 8192 },
        Vec2 { x: 20000, y: 12000 },
        Vec2 { x: 0, y: 12000 },
    ];
    let platform = runplusplus::hull::ConvexHull::from_points(&pts);
    let obstacles = [platform];
    let mut player = Player::new(Vec2 { x: 8192, y: 0 });
    let mut landed = false;
    for _ in 0..2000 {
        player.update(&map, &obstacles);
        if player.get_ground_normal().is_some() && player.get_velocity().y == 0 {
            landed = true;
            break;
        }
    }
    assert!(landed, "never landed on the standalone platform");
    let bottom = player.get_center().y + 24 * 256;
    assert!((bottom - 8192).abs() <= 16);
}

#[test]
fn spawn_player_stands_at_the_start_cell() {
    let mut map = TileMap::new(SIZE);
    map.set_player_start(Vec2 { x: 2, y: -1 });
    let player = map.spawn_player();
    assert_eq!(
        player.get_center(),
        Vec2 { x: 2 * SIZE + SIZE / 2, y: -1 * SIZE + SIZE / 2 }
    );
    assert_eq!(player.get_velocity(), Vec2 { x: 0, y: 0 });
}

#[test]
fn translate_moves_center_and_collision_together() {
    let mut player = Player::new(Vec2 { x: 0, y: 0 });
    player.translate(Vec2 { x: 500, y: -300 });
    assert_eq!(player.get_center(), Vec2 { x: 500, y: -300 });
    let pts = player.get_collision().get_points();
    assert_eq!(pts[0], Vec2 { x: 500 - 12 * 256, y: -300 - 24 * 256 });
}

fn wall_map() -> TileMap {
    let mut map = TileMap::new(SIZE);
    for y in -2..3 {
        map.add_tile(Vec2 { x: 2, y }, Tile::Square);
    }
    map
}

#[test]
fn running_into_a_wall_sets_wall_contact() {
    let map = wall_map();
    let mut player = Player::new(Vec2 { x: 2 * SIZE - 4000, y: -8000 });
    let mut saw_wall = false;
    for _ in 0..600 {
        player.submit_command(PlayerCommand::MoveRight);
        player.update(&map, &[]);
        if player.get_wall_normal() == Some(Vec2 { x: -1, y: 0 }) {
            saw_wall = true;
            break;
        }
    }
    assert!(saw_wall, "the body never registered the wall");
}

#[test]
fn drop_command_releases_the_wall() {
    let map = wall_map();
    let mut player = Player::new(Vec2 { x: 2 * SIZE - 4000, y: -8000 });
    let mut saw_wall = false;
    for _ in 0..600 {
        player.submit_command(PlayerCommand::MoveRight);
        player.update(&map, &[]);
        if player.get_wall_normal().is_some() {
            saw_wall = true;
            break;
        }
    }
    assert!(saw_wall);
    player.submit_command(PlayerCommand::Drop);
    player.update(&map, &[]);
    assert!(player.get_wall_normal().is_none());
}

#[test]
fn held_jump_fires_again_on_landing() {
    // The jump flag is sticky: held without a stop-jump, it launches the
    // body again as soon as it regains ground contact.
    let map = ground_map();
    let mut player = Player::new(Vec2 { x: 8192, y: -2000 });
    let ticks = settle(&mut player, &map, 2000);
    assert!(ticks < 2000);
    player.submit_command(PlayerCommand::Jump);
    let mut first_jump = false;
    for _ in 0..4 {
        player.update(&map, &[]);
        if player.get_velocity().y < -50000 {
            first_jump = true;
            break;
        }
    }
    assert!(first_jump);
    // No further Jump command: after the arc comes down, the held flag
    // launches the body again.
    let mut second_jump = false;
    let mut was_airborne = false;
    for _ in 0..2000 {
        player.update(&map, &[]);
        if player.get_velocity().y > 10000 {
            was_airborne = true;
        }
        if was_airborne && player.get_velocity().y < -50000 {
            second_jump = true;
            break;
        }
    }
    assert!(second_jump, "the held jump flag did not fire again");
}
