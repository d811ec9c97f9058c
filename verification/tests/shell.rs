use runplusplus::game_builder::GameBuilder;
use runplusplus::rect::Rectangle;
use runplusplus::vec2::Vec2;

#[test]
fn builder_defaults() {
    let b = GameBuilder::new();
    assert_eq!(b.window.title, "Rax");
    assert_eq!(b.window.width, 640);
    assert_eq!(b.window.height, 360);
    assert!(!b.window.fullscreen);
    assert!(b.window.vsync);
    assert_eq!(b.window.samples, 4);
}

#[test]
fn builder_setters() {
    let b = GameBuilder::new()
        .with_title("R++")
        .with_size(1280, 720)
        .with_fullscreen(true)
        .with_vsync(false)
        .with_samples(8);
    assert_eq!(b.window.title, "R++");
    assert_eq!(b.window.width, 1280);
    assert_eq!(b.window.height, 720);
    assert!(b.window.fullscreen);
    assert!(!b.window.vsync);
    assert_eq!(b.window.samples, 8);
}

#[test]
fn rectangle_contains_is_inclusive() {
    let r = Rectangle::new(-2, 3, 0, 5);
    assert!(r.contains(Vec2 { x: -2, y: 0 }));
    assert!(r.contains(Vec2 { x: 3, y: 5 }));
    assert!(!r.contains(Vec2 { x: 4, y: 2 }));
    assert!(!r.contains(Vec2 { x: 0, y: -1 }));
}
