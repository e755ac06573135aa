use galvo_vector::font::{load_mapping, HersheyRenderer};
use galvo_vector::textpath::{synthesize, text_to_path};

const FONT_TEXT: &[u8] = b"    1  3JZRRZR\n";

fn stroke(x: i32, y: i32, pen: bool) -> galvo_vector::font::Point {
    galvo_vector::font::Point { x, y, pen }
}

#[test]
fn empty_strokes_give_empty_path() {
    let path = synthesize(&Vec::new(), 0, 0, 1000, 1000, (255, 0, 0));
    assert_eq!(path.len(), 0);
}

#[test]
fn first_point_gets_settle_delay() {
    let strokes = vec![stroke(0, 0, true)];
    let path = synthesize(&strokes, 100, 100, 1000, 1000, (255, 0, 0));
    assert_eq!(path.len(), 1);
    assert_eq!(path[0].x, 100);
    assert_eq!(path[0].y, 100);
    assert_eq!(path[0].color, (255, 0, 0));
    assert_eq!(path[0].delay, 300);
}

#[test]
fn pen_up_first_point_is_blanked() {
    let strokes = vec![stroke(0, 0, false)];
    let path = synthesize(&strokes, 0, 0, 1000, 1000, (255, 0, 0));
    assert_eq!(path[0].color, (0, 0, 0));
}

#[test]
fn segment_delays_sum_to_travel_time() {
    // One pen-down segment of 8 units: two sub-points whose delays sum
    // to 8000 milli-units over 20000 units per second, 400 microseconds.
    let strokes = vec![stroke(0, 0, true), stroke(8, 0, true)];
    let path = synthesize(&strokes, 100, 100, 1000, 1000, (255, 0, 0));
    assert_eq!(path.len(), 3);
    let total: u32 = path[1].delay as u32 + path[2].delay as u32;
    assert_eq!(total, 400);
    assert!(path[1].delay <= 500);
    assert!(path[2].delay <= 500);
    assert_eq!(path[1].x, 104);
    assert_eq!(path[2].x, 108);
}

#[test]
fn travel_moves_twice_as_fast_as_drawing() {
    let strokes = vec![stroke(0, 0, true), stroke(8, 0, false)];
    let path = synthesize(&strokes, 100, 100, 1000, 1000, (255, 0, 0));
    let total: u32 = path[1].delay as u32 + path[2].delay as u32;
    assert_eq!(total, 200);
    assert_eq!(path[1].color, (0, 0, 0));
}

#[test]
fn zero_length_segments_emit_nothing() {
    let strokes = vec![stroke(3, 4, true), stroke(3, 4, true), stroke(3, 4, false)];
    let path = synthesize(&strokes, 0, 0, 1000, 1000, (255, 0, 0));
    assert_eq!(path.len(), 1);
}

#[test]
fn sharp_corner_inserts_dwell_point() {
    // The path doubles straight back: the sharpest possible corner.
    let strokes = vec![stroke(0, 0, true), stroke(8, 0, true), stroke(0, 0, true)];
    let path = synthesize(&strokes, 100, 100, 1000, 1000, (255, 0, 0));
    // First point, two sub-points, a dwell, then two more sub-points.
    assert_eq!(path.len(), 6);
    assert_eq!(path[3].x, 108);
    assert_eq!(path[3].delay, 20);
}

#[test]
fn straight_runs_get_no_dwell() {
    let strokes = vec![stroke(0, 0, true), stroke(8, 0, true), stroke(16, 0, true)];
    let path = synthesize(&strokes, 100, 100, 1000, 1000, (255, 0, 0));
    assert_eq!(path.len(), 5);
}

#[test]
fn text_to_path_renders_and_times() {
    let renderer = HersheyRenderer::new(FONT_TEXT);
    let mapping = load_mapping(b"1 0\n").unwrap();
    let path = text_to_path(&renderer, b" ", 100, 100, 1000, 1000, (0, 255, 0), &mapping);
    assert_eq!(path.len(), 3);
    assert_eq!(path[0].x, 108);
    assert_eq!(path[0].color, (0, 0, 0));
    assert_eq!(path[1].color, (0, 255, 0));
}

#[test]
fn isqrt_rounds_down() {
    assert_eq!(galvo_vector::numeric::isqrt(0), 0);
    assert_eq!(galvo_vector::numeric::isqrt(16), 4);
    assert_eq!(galvo_vector::numeric::isqrt(17), 4);
    assert_eq!(galvo_vector::numeric::isqrt(24), 4);
    assert_eq!(galvo_vector::numeric::isqrt(25), 5);
}

#[test]
fn ceil_sqrt_rounds_up() {
    assert_eq!(galvo_vector::numeric::ceil_sqrt(0), 0);
    assert_eq!(galvo_vector::numeric::ceil_sqrt(16), 4);
    assert_eq!(galvo_vector::numeric::ceil_sqrt(17), 5);
}

#[test]
fn sine_approximation_hits_known_points() {
    assert_eq!(galvo_vector::numeric::sin_mrad(0), 0);
    assert_eq!(galvo_vector::numeric::sin_mrad(6284), 0);
    let quarter = galvo_vector::numeric::sin_mrad(1571);
    assert!(quarter >= 990 && quarter <= 1000);
    let neg = galvo_vector::numeric::sin_mrad(3142 + 1571);
    assert!(neg <= -990);
}

#[test]
fn firmware_text_path_uses_distance_delays() {
    let renderer = HersheyRenderer::new(FONT_TEXT);
    let mapping = load_mapping(b"1 0\n").unwrap();
    let path = galvo_vector::demos::text_to_path(&renderer, b" ", 100, 100, 1000, 1000, &mapping);
    assert_eq!(path.len(), 2);
    assert_eq!(path[0].delay, 500);
    assert_eq!(path[0].color, 0);
    // The 8-unit pen-down segment: 8 * 15 - 2 microseconds, plus the
    // 25 microsecond pen-drop settle.
    assert_eq!(path[1].delay, 143);
    assert_eq!(path[1].color, galvo_vector::proto::COLOR_RED);
}
