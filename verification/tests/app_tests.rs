use galvo_vector::apps::{
    clamp_joystick, decode_controller_report, utc_hms, Align, AppKind, AsteroidSize, Clock,
    Controls, Cycle, FixedTimeSource, Maps, Mbta, VectorApp,
};
use galvo_vector::font::{load_mapping, HersheyRenderer};

const FONT_TEXT: &[u8] = b"    1  3JZRRZR\n";

#[test]
fn joystick_clamps_to_direction() {
    assert_eq!(clamp_joystick(-500), -1);
    assert_eq!(clamp_joystick(-1), -1);
    assert_eq!(clamp_joystick(0), 0);
    assert_eq!(clamp_joystick(1), 1);
    assert_eq!(clamp_joystick(500), 1);
}

#[test]
fn controller_report_decodes() {
    let report = [200u8, 20, 0, 0, 0, 0b10];
    let c = decode_controller_report(&report);
    assert_eq!(c.x, 1);
    assert_eq!(c.y, -1);
    assert!(!c.a);
    assert!(c.b);
}

#[test]
fn epoch_seconds_split_into_time_of_day() {
    assert_eq!(utc_hms(0), (0, 0, 0));
    assert_eq!(utc_hms(86399), (23, 59, 59));
    assert_eq!(utc_hms(3661), (1, 1, 1));
}

#[test]
fn align_shows_one_centered_point() {
    let mut align = Align::new();
    let path = align.get_path(0);
    assert_eq!(path.len(), 1);
    assert_eq!(path[0].x, 128);
    assert_eq!(path[0].y, 128);
    assert_eq!(path[0].color, (64, 128, 64));
    assert_eq!(path[0].delay, 1000);
}

#[test]
fn clock_face_ends_parked_dark() {
    let renderer = HersheyRenderer::new(FONT_TEXT);
    let mapping = load_mapping(b"1 0\n").unwrap();
    let clock = Clock::new(FixedTimeSource { secs: 3661 }, renderer, mapping);
    let path = clock.produce(7);
    assert!(path.len() >= 5);
    let last = path[path.len() - 1];
    assert_eq!((last.x, last.y), (192, 96));
    assert_eq!(last.color, (0, 0, 0));
    assert_eq!(last.delay, 0);
}

#[test]
fn clock_is_deterministic_for_a_moment() {
    let renderer = HersheyRenderer::new(FONT_TEXT);
    let mapping = load_mapping(b"1 0\n").unwrap();
    let clock = Clock::new(FixedTimeSource { secs: 1234 }, renderer, mapping);
    assert_eq!(clock.produce(3), clock.produce(3));
}

#[test]
fn cube_draws_twelve_edges() {
    let renderer = HersheyRenderer::new(FONT_TEXT);
    let mapping = load_mapping(b"1 0\n").unwrap();
    let cube = galvo_vector::apps::CubeDemo::new(&renderer, &mapping);
    let path = cube.produce(0);
    // Every edge contributes a move, twenty-one steps and a settle.
    assert_eq!(path.len(), 12 * 23);
    assert_eq!(path[0].color, (0, 0, 0));
    assert_eq!(path[0].delay, 400);
    assert_eq!(path[1].delay, 50);
    assert_eq!(path[22].delay, 100);
}

#[test]
fn maps_app_emits_polylines() {
    let maps = Maps::new(b"0 0\n0.5 0\n\n-1 -1\n-0.5 -1\n");
    let mut maps = maps;
    let path = maps.get_path(0);
    assert!(path.len() >= 4);
    assert_eq!(path[0].color, (0, 0, 0));
    assert_eq!(path[0].delay, 1000);
    assert_eq!(path[0].x, 128);
}

#[test]
fn maps_app_drops_single_point_groups() {
    let mut maps = Maps::new(b"0 0\n");
    let path = maps.get_path(0);
    assert_eq!(path.len(), 0);
}

#[test]
fn mbta_app_parks_the_beam_at_center() {
    let data = b"#FF0000\n-71.05749 42.358723\n-71.05649 42.358723\n";
    let mut mbta = Mbta::new(data);
    let path = mbta.get_path(0);
    assert!(path.len() >= 1);
    let last = path[path.len() - 1];
    assert_eq!((last.x, last.y), (128, 128));
    assert_eq!(last.color, (0, 0, 0));
    assert_eq!(last.delay, 1);
}

#[test]
fn asteroids_frame_parks_the_beam() {
    let mut demo = galvo_vector::apps::Asteroids::new();
    let path = demo.get_path(0);
    assert!(path.len() >= 4);
    let last = path[path.len() - 1];
    assert_eq!((last.x, last.y), (128, 128));
    assert_eq!(last.color, (0, 0, 0));
    // The first ship point is a blanked move.
    assert_eq!(path[0].color, (0, 0, 0));
    assert_eq!(path[0].delay, 1000);
}

#[test]
fn asteroids_rocks_drift_between_frames() {
    let mut demo = galvo_vector::apps::Asteroids::new();
    let first = demo.get_path(0);
    let second = demo.get_path(1);
    assert_ne!(first, second);
}

#[test]
fn asteroid_sizes_fragment_until_gone() {
    assert_eq!(AsteroidSize::Large.fragments(), Some(AsteroidSize::Medium));
    assert_eq!(AsteroidSize::Medium.fragments(), Some(AsteroidSize::Small));
    assert_eq!(AsteroidSize::Small.fragments(), None);
    assert_eq!(AsteroidSize::Large.radius_micro(), 60000);
    assert_eq!(AsteroidSize::Small.radius_micro(), 25000);
}

#[test]
fn cycle_rejects_an_empty_collection() {
    let apps: Vec<AppKind<FixedTimeSource>> = Vec::new();
    assert!(Cycle::new(apps).is_none());
}

#[test]
fn cycle_switches_on_the_secondary_button() {
    let apps: Vec<AppKind<FixedTimeSource>> = vec![
        AppKind::Align(Align::new()),
        AppKind::Maps(Maps::new(b"")),
    ];
    let mut cycle = Cycle::new(apps).unwrap();
    let first = cycle.get_path(0);
    assert_eq!(first.len(), 1);
    cycle.handle_controls(Controls { x: 0, y: 0, a: false, b: true });
    let second = cycle.get_path(1);
    assert_eq!(second.len(), 0);
    cycle.handle_controls(Controls { x: 0, y: 0, a: false, b: true });
    let third = cycle.get_path(2);
    assert_eq!(third.len(), 1);
    // Other controls are forwarded, not switched on.
    cycle.handle_controls(Controls { x: 1, y: -1, a: true, b: false });
    assert_eq!(cycle.get_path(3).len(), 1);
}

#[test]
fn alphabet_demo_renders_rows() {
    let renderer = HersheyRenderer::new(FONT_TEXT);
    let mapping = load_mapping(b"1 0\n").unwrap();
    // The sample rows contain no mapped characters in this tiny font, so
    // the demo path is empty; with a mapped font it fills.
    let mut demo = galvo_vector::apps::AlphabetDemo::new(&renderer, &mapping);
    assert_eq!(demo.get_path(0).len(), 0);
    let fw = galvo_vector::demos::AlphabetDemo::new(&renderer, &mapping);
    assert_eq!(galvo_vector::demos::Demo::get_path(&fw, 0).len(), 0);
}

#[test]
fn hex_colors_parse_exactly() {
    assert_eq!(galvo_vector::parse::parse_hex_u32(b"FF00FF").unwrap(), 0xFF00FF);
    assert_eq!(galvo_vector::parse::parse_hex_u32(b"ff00aa").unwrap(), 0xFF00AA);
    assert!(galvo_vector::parse::parse_hex_u32(b"GG").is_err());
    assert!(galvo_vector::parse::parse_hex_u32(b"").is_err());
    assert!(galvo_vector::parse::parse_hex_u32(b"123456789").is_err());
}
