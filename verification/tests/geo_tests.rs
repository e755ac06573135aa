use galvo_vector::geo::{
    clip_segment, greedy_order_lines, merge_connected_lines, parse_coord_udeg, parse_latlon_file,
    project_and_crop, PlanarPoint, Polyline,
};

fn pp(x: i64, y: i64) -> PlanarPoint {
    PlanarPoint { x, y }
}

fn line(points: Vec<PlanarPoint>, color: (u8, u8, u8)) -> Polyline<PlanarPoint> {
    Polyline { points, color }
}

#[test]
fn coordinate_fields_parse_to_microdegrees() {
    assert_eq!(parse_coord_udeg(b"-71.057489").unwrap(), -71057489);
    assert_eq!(parse_coord_udeg(b"1.5").unwrap(), 1500000);
    assert_eq!(parse_coord_udeg(b"2").unwrap(), 2000000);
    assert_eq!(parse_coord_udeg(b"0.0000009").unwrap(), 0);
    assert!(parse_coord_udeg(b"abc").is_err());
    assert!(parse_coord_udeg(b"").is_err());
    assert!(parse_coord_udeg(b"1000").is_err());
}

#[test]
fn latlon_file_splits_on_blank_lines_and_colors() {
    let text = b"#FF0080\n0 0\n1 0\n\n2 0\n3 0\n";
    let lines = parse_latlon_file(text);
    assert_eq!(lines.len(), 2);
    assert_eq!(lines[0].color, (255, 0, 128));
    assert_eq!(lines[0].points.len(), 2);
    assert_eq!(lines[0].points[1].lon_udeg, 1000000);
    assert_eq!(lines[1].points[0].lon_udeg, 2000000);
}

#[test]
fn latlon_polylines_before_a_color_are_dropped() {
    let text = b"0 0\n1 0\n\n#00FF00\n2 0\n3 0\n";
    let lines = parse_latlon_file(text);
    assert_eq!(lines.len(), 1);
    assert_eq!(lines[0].color, (0, 255, 0));
}

#[test]
fn clip_keeps_inside_segment_unchanged() {
    let a = pp(-10, 5);
    let b = pp(10, -5);
    assert_eq!(clip_segment(a, b, 100), Some((a, b)));
}

#[test]
fn clip_drops_fully_outside_segment() {
    assert_eq!(clip_segment(pp(200, 0), pp(300, 50), 100), None);
    assert_eq!(clip_segment(pp(-200, 0), pp(-300, 50), 100), None);
    assert_eq!(clip_segment(pp(0, 200), pp(50, 300), 100), None);
    assert_eq!(clip_segment(pp(0, -200), pp(50, -300), 100), None);
}

#[test]
fn clip_drops_a_diagonal_miss() {
    // Neither endpoint is past a single side, but the segment passes
    // outside the window's corner.
    assert_eq!(clip_segment(pp(300, 0), pp(0, 300), 100), None);
}

#[test]
fn clip_cuts_a_crossing_segment_at_the_window() {
    let r = clip_segment(pp(-200, 0), pp(200, 0), 100).unwrap();
    assert_eq!(r.0, pp(-100, 0));
    assert_eq!(r.1, pp(100, 0));
}

#[test]
fn crop_splits_at_dropped_segments() {
    let input = vec![Polyline {
        points: vec![
            galvo_vector::geo::LatLon { lon_udeg: 0, lat_udeg: 0 },
            galvo_vector::geo::LatLon { lon_udeg: 10, lat_udeg: 0 },
        ],
        color: (1, 2, 3),
    }];
    // A tiny window around the center keeps the segment.
    let out = project_and_crop(&input, 0, 0, 1000000, 1000000);
    assert_eq!(out.len(), 1);
    assert_eq!(out[0].color, (1, 2, 3));
    assert!(out[0].points.len() >= 2);
}

#[test]
fn merge_joins_touching_polylines() {
    let lines = vec![
        line(vec![pp(0, 0), pp(1, 0)], (9, 9, 9)),
        line(vec![pp(1, 0), pp(2, 0)], (9, 9, 9)),
    ];
    let merged = merge_connected_lines(lines, 1);
    assert_eq!(merged.len(), 1);
    assert_eq!(merged[0].points, vec![pp(0, 0), pp(1, 0), pp(2, 0)]);
    assert_eq!(merged[0].color, (9, 9, 9));
}

#[test]
fn merge_respects_color() {
    let lines = vec![
        line(vec![pp(0, 0), pp(1, 0)], (1, 1, 1)),
        line(vec![pp(1, 0), pp(2, 0)], (2, 2, 2)),
    ];
    let merged = merge_connected_lines(lines, 1);
    assert_eq!(merged.len(), 2);
}

#[test]
fn merge_is_idempotent_on_a_merged_set() {
    let lines = vec![
        line(vec![pp(0, 0), pp(10, 0)], (1, 1, 1)),
        line(vec![pp(1000, 1000), pp(2000, 1000)], (1, 1, 1)),
    ];
    let once = merge_connected_lines(lines, 2);
    assert_eq!(once.len(), 2);
    let twice = merge_connected_lines(once, 2);
    assert_eq!(twice.len(), 2);
    // Merging a fully merged set only reverses the order.
    assert_eq!(twice[0].points, vec![pp(0, 0), pp(10, 0)]);
    assert_eq!(twice[1].points, vec![pp(1000, 1000), pp(2000, 1000)]);
}

#[test]
fn greedy_order_keeps_every_polyline() {
    let lines = vec![
        line(vec![pp(0, 0), pp(1, 0)], (1, 1, 1)),
        line(vec![pp(100, 0), pp(101, 0)], (1, 1, 1)),
        line(vec![pp(10, 0), pp(11, 0)], (1, 1, 1)),
    ];
    let ordered = greedy_order_lines(lines);
    assert_eq!(ordered.len(), 3);
    let mut xs: Vec<i64> = ordered.iter().map(|l| l.points[0].x.min(l.points[1].x)).collect();
    xs.sort();
    assert_eq!(xs, vec![0, 10, 100]);
}

#[test]
fn greedy_order_chains_to_the_nearest_endpoint() {
    // Starting from the popped last line at x=10, the nearest remaining
    // endpoint is x=11 of the second line, which gets reversed.
    let lines = vec![
        line(vec![pp(100, 0), pp(101, 0)], (1, 1, 1)),
        line(vec![pp(12, 0), pp(11, 0)], (1, 1, 1)),
        line(vec![pp(9, 0), pp(10, 0)], (1, 1, 1)),
    ];
    let ordered = greedy_order_lines(lines);
    assert_eq!(ordered[0].points, vec![pp(9, 0), pp(10, 0)]);
    assert_eq!(ordered[1].points, vec![pp(11, 0), pp(12, 0)]);
    assert_eq!(ordered[2].points, vec![pp(100, 0), pp(101, 0)]);
}

#[test]
fn normalize_scales_by_half_side() {
    let mut lines = vec![line(vec![pp(500, -250), pp(0, 0)], (1, 1, 1))];
    galvo_vector::geo::normalize(&mut lines, 1000);
    assert_eq!(lines[0].points[0], pp(1000, -500));
    assert_eq!(lines[0].points[1], pp(0, 0));
}

#[test]
fn emission_opens_each_polyline_blanked() {
    let lines = vec![line(vec![pp(0, 0), pp(1000, 0)], (5, 5, 5))];
    let path = galvo_vector::geo::polylines_to_path(&lines, 0, 1, true);
    assert!(path.len() >= 2);
    assert_eq!(path[0].color, (0, 0, 0));
    assert_eq!(path[0].delay, 1000);
    assert_eq!(path[1].color, (5, 5, 5));
    assert_eq!(path[1].delay, 1);
    // The last point settles at the polyline's end.
    let last = path[path.len() - 1];
    assert_eq!(last.x, 255);
    assert_eq!(last.delay, 100);
}
