use liveboard::datatypes::{Circle, Color, PointerPosition, SocketMessage};
use liveboard::wire::{encode, parse};

fn color(r: u8, g: u8, b: u8) -> Color {
    Color { r, g, b }
}

#[test]
fn encode_circle_exact() {
    let c = Circle { x: 5, y: 5, radius: 5, color: color(1, 2, 3) };
    let s = encode(&SocketMessage::Circle(c));
    assert_eq!(s, "{\"Circle\":{\"x\":5,\"y\":5,\"radius\":5,\"color\":{\"r\":1,\"g\":2,\"b\":3}}}");
}

#[test]
fn encode_circle_negative_coords() {
    let c = Circle { x: -40, y: 0, radius: 10000, color: color(255, 0, 9) };
    let s = encode(&SocketMessage::Circle(c));
    assert_eq!(
        s,
        "{\"Circle\":{\"x\":-40,\"y\":0,\"radius\":10000,\"color\":{\"r\":255,\"g\":0,\"b\":9}}}"
    );
}

#[test]
fn encode_pointer_exact() {
    let p = PointerPosition { id: String::from("#0a141e"), x: 7, y: -3, color: color(10, 20, 30) };
    let s = encode(&SocketMessage::Pointer(p));
    assert_eq!(
        s,
        "{\"Pointer\":{\"id\":\"#0a141e\",\"x\":7,\"y\":-3,\"color\":{\"r\":10,\"g\":20,\"b\":30}}}"
    );
}

#[test]
fn parse_circle_fields() {
    let s = "{\"Circle\":{\"x\":12,\"y\":-7,\"radius\":5,\"color\":{\"r\":1,\"g\":2,\"b\":3}}}";
    match parse(s) {
        Some(SocketMessage::Circle(c)) => {
            assert_eq!(c.x, 12);
            assert_eq!(c.y, -7);
            assert_eq!(c.radius, 5);
            assert_eq!(c.color.r, 1);
            assert_eq!(c.color.g, 2);
            assert_eq!(c.color.b, 3);
        }
        _ => panic!("expected a circle"),
    }
}

#[test]
fn parse_pointer_fields() {
    let s = "{\"Pointer\":{\"id\":\"#ff00ab\",\"x\":100,\"y\":200,\"color\":{\"r\":255,\"g\":0,\"b\":171}}}";
    match parse(s) {
        Some(SocketMessage::Pointer(p)) => {
            assert_eq!(p.id, "#ff00ab");
            assert_eq!(p.x, 100);
            assert_eq!(p.y, 200);
            assert_eq!(p.color.r, 255);
            assert_eq!(p.color.g, 0);
            assert_eq!(p.color.b, 171);
        }
        _ => panic!("expected a pointer"),
    }
}

#[test]
fn parse_pointer_empty_id() {
    let s = "{\"Pointer\":{\"id\":\"\",\"x\":0,\"y\":0,\"color\":{\"r\":0,\"g\":0,\"b\":0}}}";
    match parse(s) {
        Some(SocketMessage::Pointer(p)) => assert_eq!(p.id, ""),
        _ => panic!("expected a pointer"),
    }
}

#[test]
fn round_trip_circle() {
    let c = Circle { x: -10000, y: 10000, radius: 0, color: color(0, 128, 255) };
    let s = encode(&SocketMessage::Circle(c));
    match parse(&s) {
        Some(SocketMessage::Circle(c2)) => {
            assert_eq!(c2.x, c.x);
            assert_eq!(c2.y, c.y);
            assert_eq!(c2.radius, c.radius);
            assert_eq!(c2.color.r, c.color.r);
            assert_eq!(c2.color.g, c.color.g);
            assert_eq!(c2.color.b, c.color.b);
        }
        _ => panic!("round trip lost the circle"),
    }
}

#[test]
fn round_trip_pointer() {
    let p = PointerPosition { id: String::from("alice"), x: 1, y: 2, color: color(3, 4, 5) };
    let s = encode(&SocketMessage::Pointer(p));
    match parse(&s) {
        Some(SocketMessage::Pointer(p2)) => {
            assert_eq!(p2.id, "alice");
            assert_eq!(p2.x, 1);
            assert_eq!(p2.y, 2);
        }
        _ => panic!("round trip lost the pointer"),
    }
}

#[test]
fn parse_rejects_malformed() {
    assert!(parse("").is_none());
    assert!(parse("not json at all").is_none());
    assert!(parse("{\"Square\":{\"x\":5}}").is_none());
    // whitespace is not part of the canonical frame
    assert!(parse("{ \"Circle\":{\"x\":5,\"y\":5,\"radius\":5,\"color\":{\"r\":1,\"g\":2,\"b\":3}}}").is_none());
    // truncated
    assert!(parse("{\"Circle\":{\"x\":5,\"y\":5").is_none());
}

#[test]
fn parse_rejects_bad_numbers() {
    // leading zero
    assert!(parse("{\"Circle\":{\"x\":05,\"y\":5,\"radius\":5,\"color\":{\"r\":1,\"g\":2,\"b\":3}}}").is_none());
    // minus zero
    assert!(parse("{\"Circle\":{\"x\":-0,\"y\":5,\"radius\":5,\"color\":{\"r\":1,\"g\":2,\"b\":3}}}").is_none());
    // out of coordinate range
    assert!(parse("{\"Circle\":{\"x\":10001,\"y\":5,\"radius\":5,\"color\":{\"r\":1,\"g\":2,\"b\":3}}}").is_none());
    // color component above one byte
    assert!(parse("{\"Circle\":{\"x\":5,\"y\":5,\"radius\":5,\"color\":{\"r\":256,\"g\":2,\"b\":3}}}").is_none());
    // empty number
    assert!(parse("{\"Circle\":{\"x\":,\"y\":5,\"radius\":5,\"color\":{\"r\":1,\"g\":2,\"b\":3}}}").is_none());
    // bare minus
    assert!(parse("{\"Circle\":{\"x\":-,\"y\":5,\"radius\":5,\"color\":{\"r\":1,\"g\":2,\"b\":3}}}").is_none());
}

#[test]
fn parse_rejects_trailing_garbage() {
    assert!(parse("{\"Circle\":{\"x\":5,\"y\":5,\"radius\":5,\"color\":{\"r\":1,\"g\":2,\"b\":3}}}x").is_none());
}

#[test]
fn parse_rejects_backslash_in_id() {
    assert!(parse("{\"Pointer\":{\"id\":\"a\\\\b\",\"x\":0,\"y\":0,\"color\":{\"r\":0,\"g\":0,\"b\":0}}}").is_none());
}
