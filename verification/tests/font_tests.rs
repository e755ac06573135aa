use galvo_vector::font::{load_mapping, Glyph, HersheyRenderer};

// A one-glyph stroke font: id 1, bearings J/Z (-8/8), a pen-up point at
// the origin and a pen-down point eight units right.
const FONT_TEXT: &[u8] = b"    1  3JZRRZR\n";

#[test]
fn glyph_record_parses() {
    let (id, glyph) = Glyph::from_line(b"    1  3JZRRZR").unwrap();
    assert_eq!(id, 1);
    assert_eq!(glyph.left, -8);
    assert_eq!(glyph.right, 8);
    assert_eq!(glyph.strokes.len(), 2);
    assert_eq!(glyph.strokes[0].x, 0);
    assert_eq!(glyph.strokes[0].y, 0);
    assert!(!glyph.strokes[0].pen);
    assert_eq!(glyph.strokes[1].x, 8);
    assert_eq!(glyph.strokes[1].y, 0);
    assert!(glyph.strokes[1].pen);
}

#[test]
fn glyph_record_rejects_short_line() {
    assert!(Glyph::from_line(b"    1").is_err());
}

#[test]
fn glyph_record_rejects_bad_id() {
    assert!(Glyph::from_line(b"  abc  3JZRRZR").is_err());
}

#[test]
fn pen_lift_sentinel_starts_new_stroke() {
    // "RZ" draws, then " R" lifts the pen, then "ZZ" starts a new stroke.
    let (_, glyph) = Glyph::from_line(b"    7  4JZRZ RZZ").unwrap();
    assert_eq!(glyph.strokes.len(), 2);
    assert!(!glyph.strokes[0].pen);
    assert!(!glyph.strokes[1].pen);
}

#[test]
fn mapping_assigns_inclusive_range() {
    let mapping = load_mapping(b"65 70\n").unwrap();
    assert_eq!(mapping.glyph_id(32), 65);
    assert_eq!(mapping.glyph_id(33), 66);
    assert_eq!(mapping.glyph_id(34), 67);
    assert_eq!(mapping.glyph_id(35), 68);
    assert_eq!(mapping.glyph_id(36), 69);
    assert_eq!(mapping.glyph_id(37), 70);
    assert_eq!(mapping.glyph_id(38), 0);
}

#[test]
fn mapping_zero_last_means_single() {
    let mapping = load_mapping(b"7 0\n").unwrap();
    assert_eq!(mapping.glyph_id(32), 7);
    assert_eq!(mapping.glyph_id(33), 0);
}

#[test]
fn mapping_skips_malformed_lines() {
    let mapping = load_mapping(b"junk\n65 70\n").unwrap();
    assert_eq!(mapping.glyph_id(32), 65);
}

#[test]
fn render_empty_text_is_empty() {
    let renderer = HersheyRenderer::new(FONT_TEXT);
    let mapping = load_mapping(b"1 0\n").unwrap();
    let strokes = renderer.render_text(b"", &mapping);
    assert_eq!(strokes.len(), 0);
}

#[test]
fn render_is_deterministic() {
    let renderer = HersheyRenderer::new(FONT_TEXT);
    let mapping = load_mapping(b"1 0\n").unwrap();
    let a = renderer.render_text(b"  ", &mapping);
    let b = renderer.render_text(b"  ", &mapping);
    assert_eq!(a, b);
}

#[test]
fn render_translates_by_bearings() {
    let renderer = HersheyRenderer::new(FONT_TEXT);
    let mapping = load_mapping(b"1 0\n").unwrap();
    // One glyph: strokes shifted right by the left bearing.
    let strokes = renderer.render_text(b" ", &mapping);
    assert_eq!(strokes.len(), 2);
    assert_eq!((strokes[0].x, strokes[0].y, strokes[0].pen), (8, 0, false));
    assert_eq!((strokes[1].x, strokes[1].y, strokes[1].pen), (16, 0, true));
    // Two glyphs: the second advanced by right minus left.
    let twice = renderer.render_text(b"  ", &mapping);
    assert_eq!(twice.len(), 4);
    assert_eq!(twice[2].x, 24);
    assert_eq!(twice[3].x, 32);
}

#[test]
fn render_skips_unmapped_codepoints() {
    let renderer = HersheyRenderer::new(FONT_TEXT);
    let mapping = load_mapping(b"1 0\n").unwrap();
    let strokes = renderer.render_text(b"X", &mapping);
    assert_eq!(strokes.len(), 0);
}

#[test]
fn chr_render_indexes_by_byte() {
    let font = galvo_vector::font::load_file(b"   32  3JZRRZR\n");
    let strokes = galvo_vector::chr::render_text(b" ", &font);
    assert_eq!(strokes.len(), 2);
    assert_eq!(strokes[0].x, 8);
    let empty = galvo_vector::chr::render_text(b"", &font);
    assert_eq!(empty.len(), 0);
}
