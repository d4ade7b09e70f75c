use liveboard::client_board::ClientBoard;
use liveboard::datatypes::{Color, PointerPosition};

fn color() -> Color {
    Color { r: 1, g: 2, b: 3 }
}

fn pointer(id: &str, x: i64, y: i64) -> PointerPosition {
    PointerPosition { id: String::from(id), x, y, color: Color { r: 9, g: 9, b: 9 } }
}

#[test]
fn hex_color_renders_lowercase() {
    assert_eq!(Color { r: 1, g: 2, b: 3 }.hex_color(), "#010203");
    assert_eq!(Color { r: 255, g: 0, b: 171 }.hex_color(), "#ff00ab");
    assert_eq!(Color { r: 0, g: 0, b: 0 }.hex_color(), "#000000");
}

#[test]
fn click_draws_and_emits_a_circle_frame() {
    let mut b = ClientBoard::new(color(), String::from("#010203"), 0);
    assert_eq!(b.on_button_released(4, 4), None);
    assert_eq!(b.circle_count(), 0);
    b.on_button_pressed();
    let frame = b.on_button_released(5, 5).expect("a press was pending");
    assert_eq!(frame, "{\"Circle\":{\"x\":5,\"y\":5,\"radius\":5,\"color\":{\"r\":1,\"g\":2,\"b\":3}}}");
    assert_eq!(b.circle_count(), 1);
    let c = b.circle_at(0);
    assert_eq!((c.x, c.y, c.radius), (5, 5, 5));
}

#[test]
fn pointer_samples_are_throttled() {
    let mut b = ClientBoard::new(color(), String::from("#010203"), 0);
    // too soon after the last update
    assert_eq!(b.on_mouse_move(1, 1, 100), None);
    let frame = b.on_mouse_move(2, 2, 201).expect("throttle window passed");
    assert_eq!(
        frame,
        "{\"Pointer\":{\"id\":\"#010203\",\"x\":2,\"y\":2,\"color\":{\"r\":1,\"g\":2,\"b\":3}}}"
    );
    // the window restarts
    assert_eq!(b.on_mouse_move(3, 3, 300), None);
    assert!(b.on_mouse_move(4, 4, 402).is_some());
}

#[test]
fn remote_pointers_get_one_cursor_each() {
    let mut b = ClientBoard::new(color(), String::from("#010203"), 0);
    b.on_other_pointer_moved(pointer("alice", 1, 1), 10);
    assert_eq!(b.cursor_count(), 1);
    b.on_other_pointer_moved(pointer("alice", 2, 2), 20);
    assert_eq!(b.cursor_count(), 1);
    b.on_other_pointer_moved(pointer("bob", 9, 9), 30);
    assert_eq!(b.cursor_count(), 2);
    let (pos, col) = b.cursor_display(1);
    assert_eq!(pos, (9_000, 9_000));
    assert_eq!((col.r, col.g, col.b), (9, 9, 9));
}

#[test]
fn ticks_move_every_cursor() {
    let mut b = ClientBoard::new(color(), String::from("#010203"), 0);
    b.on_other_pointer_moved(pointer("alice", 0, 0), 0);
    b.on_other_pointer_moved(pointer("alice", 0, 0), 1);
    b.on_other_pointer_moved(pointer("alice", 10, 0), 50);
    b.on_other_pointer_moved(pointer("alice", 20, 0), 100);
    b.on_other_pointer_moved(pointer("alice", 30, 0), 150);
    b.on_tick(150);
    let (pos, _) = b.cursor_display(0);
    assert_eq!(pos, (20_000, 0));
    b.on_tick(201);
    let (pos2, _) = b.cursor_display(0);
    assert_eq!(pos2, (30_000, 0));
}
