use liveboard::cursor::LiveCursor;
use liveboard::datatypes::{Color, PointerPosition};
use liveboard::spline::Spline;

fn sample(x: i64, y: i64) -> PointerPosition {
    PointerPosition { id: String::from("#010203"), x, y, color: Color { r: 1, g: 2, b: 3 } }
}

#[test]
fn interpolation_hits_control_points_at_whole_indices() {
    let mut sp = Spline::new();
    sp.add_point(0, 0);
    sp.add_point(10_000, 5_000);
    sp.add_point(20_000, 0);
    sp.add_point(30_000, -5_000);
    // at local time zero the curve sits exactly on the indexed point
    assert_eq!(sp.interpolate_point(1, 0), (10_000, 5_000));
    assert_eq!(sp.interpolate_point(2, 0), (20_000, 0));
    // at local time FP it has reached the next point
    assert_eq!(sp.interpolate_point(1, 1000), (20_000, 0));
}

#[test]
fn fourth_sample_enqueues_a_segment() {
    let mut c = LiveCursor::new(sample(0, 0), 0);
    c.add_point(0, 0, 0);
    c.add_point(10, 0, 50);
    c.add_point(20, 0, 100);
    assert_eq!(c.queue_len(), 0);
    c.add_point(30, 0, 150);
    assert_eq!(c.queue_len(), 1);
    assert_eq!(c.history_len(), 4);
}

#[test]
fn ticks_advance_monotonically_then_discard() {
    let mut c = LiveCursor::new(sample(0, 0), 0);
    c.add_point(0, 0, 0);
    c.add_point(10, 0, 50);
    c.add_point(20, 0, 100);
    c.add_point(30, 0, 150);
    // first tick starts the segment at its beginning: the second-newest
    // sample, in fixed-point units
    c.tick(150);
    assert_eq!(c.get_position(), (20_000, 0));
    // local time grows with the clock and the position moves forward
    c.tick(180);
    assert_eq!(c.get_position(), (26_720, 0));
    c.tick(200);
    assert_eq!(c.get_position(), (30_000, 0));
    assert_eq!(c.queue_len(), 1);
    // past its duration the segment is discarded and the cursor holds at
    // the newest sample
    c.tick(201);
    assert_eq!(c.queue_len(), 0);
    assert_eq!(c.get_position(), (30_000, 0));
    c.tick(300);
    assert_eq!(c.get_position(), (30_000, 0));
}

#[test]
fn stale_gap_resets_history_and_snaps() {
    let mut c = LiveCursor::new(sample(0, 0), 0);
    c.add_point(5, 0, 100);
    assert_eq!(c.history_len(), 1);
    assert_eq!(c.get_position(), (5_000, 0));
    // 400ms of silence: the remote cursor jumped, do not glide there
    c.add_point(10, 7, 500);
    assert_eq!(c.history_len(), 3);
    assert_eq!(c.get_position(), (10_000, 7_000));
    assert_eq!(c.queue_len(), 0);
}

#[test]
fn short_history_snaps_directly() {
    let mut c = LiveCursor::new(sample(3, 4), 0);
    assert_eq!(c.get_position(), (3_000, 4_000));
    c.add_point(6, 8, 50);
    assert_eq!(c.get_position(), (6_000, 8_000));
    assert_eq!(c.queue_len(), 0);
}
