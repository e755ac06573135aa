use galvo_vector::ilda::{ilda_default_palette, read_ilda, Cursor, DecodeError};

fn header(format: u8, name: &[u8; 8], num_records: u16) -> Vec<u8> {
    let mut v = Vec::new();
    v.extend_from_slice(b"ILDA");
    v.extend_from_slice(&[0, 0, 0]);
    v.push(format);
    v.extend_from_slice(name);
    v.extend_from_slice(b"author  ");
    v.extend_from_slice(&num_records.to_be_bytes());
    v.extend_from_slice(&[0, 1]);
    v.extend_from_slice(&[0, 1]);
    v.push(0);
    v.push(0);
    v
}

#[test]
fn cursor_reads_big_endian() {
    let data = [1u8, 2, 255, 255];
    let mut cur = Cursor::new(&data);
    assert_eq!(cur.read_u16_be(), 258);
    assert_eq!(cur.read_i16_be(), -1);
}

#[test]
fn cursor_reads_strings_and_skips() {
    let data = [65u8, 66, 67, 68, 69];
    let mut cur = Cursor::new(&data);
    let s = cur.read_string(3);
    assert_eq!(s, vec![65, 66, 67]);
    cur.skip(1);
    assert_eq!(cur.read_u8(), 69);
}

#[test]
fn zero_record_header_decodes_to_empty_map() {
    let data = header(0, b"ILDA Tes", 0);
    let frames = read_ilda(&data, 12).unwrap();
    assert_eq!(frames.len(), 0);
}

#[test]
fn truncated_file_is_an_error() {
    let data = b"ILDA\0\0\0";
    assert_eq!(read_ilda(data, 12).unwrap_err(), DecodeError::Truncated);
}

#[test]
fn bad_magic_is_an_error() {
    let mut data = header(0, b"ILDA Tes", 0);
    data[0] = b'X';
    assert_eq!(read_ilda(&data, 12).unwrap_err(), DecodeError::BadMagic);
}

#[test]
fn unknown_format_is_an_error() {
    let mut data = header(3, b"ILDA Tes", 1);
    data.extend_from_slice(&[0; 8]);
    data.extend_from_slice(&header(0, b"ILDA Tes", 0));
    assert_eq!(read_ilda(&data, 12).unwrap_err(), DecodeError::UnsupportedFormat);
}

#[test]
fn format0_frame_decodes_each_record() {
    let mut data = header(0, b"frame   ", 2);
    // Record at the raw origin: maps to (128, 127) on the device.
    data.extend_from_slice(&[0, 0, 0, 0, 0, 0, 0, 0]);
    // A blanked record: black regardless of its palette index.
    data.extend_from_slice(&[0, 0, 0, 0, 0, 0, 0x40, 5]);
    data.extend_from_slice(&header(0, b"ignored ", 0));
    let frames = read_ilda(&data, 10).unwrap();
    let path = frames.get(b"frame   ").unwrap();
    assert_eq!(path.len(), 2);
    assert_eq!(path[0].x, 128);
    assert_eq!(path[0].y, 127);
    assert_eq!(path[0].color, (255, 0, 0));
    assert_eq!(path[0].delay, 100);
    assert_eq!(path[1].color, (0, 0, 0));
}

#[test]
fn palette_block_affects_later_records_only() {
    let mut data = header(0, b"before  ", 1);
    data.extend_from_slice(&[0, 0, 0, 0, 0, 0, 0, 0]);
    let mut pal = header(2, b"palette ", 1);
    pal.extend_from_slice(&[1, 2, 3]);
    data.extend_from_slice(&pal);
    let mut after = header(0, b"after   ", 1);
    after.extend_from_slice(&[0, 0, 0, 0, 0, 0, 0, 0]);
    data.extend_from_slice(&after);
    data.extend_from_slice(&header(0, b"end     ", 0));
    let frames = read_ilda(&data, 10).unwrap();
    assert_eq!(frames.get(b"before  ").unwrap()[0].color, (255, 0, 0));
    assert_eq!(frames.get(b"after   ").unwrap()[0].color, (1, 2, 3));
}

#[test]
fn later_frames_overwrite_same_name() {
    let mut data = header(1, b"same    ", 1);
    data.extend_from_slice(&[0, 0, 0, 0, 0, 1]);
    let mut second = header(1, b"same    ", 1);
    second.extend_from_slice(&[127, 255, 0, 0, 0, 2]);
    data.extend_from_slice(&second);
    data.extend_from_slice(&header(0, b"end     ", 0));
    let frames = read_ilda(&data, 10).unwrap();
    assert_eq!(frames.len(), 1);
    let path = frames.get(b"same    ").unwrap();
    assert_eq!(path[0].x, 255);
}

#[test]
fn true_color_formats_read_channels() {
    let mut data = header(4, b"tc      ", 1);
    data.extend_from_slice(&[0, 0, 0, 0, 0, 0, 0, 9, 8, 7]);
    let mut f5 = header(5, b"tc5     ", 1);
    f5.extend_from_slice(&[0, 0, 0, 0, 0, 3, 2, 1]);
    data.extend_from_slice(&f5);
    data.extend_from_slice(&header(0, b"end     ", 0));
    let frames = read_ilda(&data, 10).unwrap();
    assert_eq!(frames.get(b"tc      ").unwrap()[0].color, (9, 8, 7));
    assert_eq!(frames.get(b"tc5     ").unwrap()[0].color, (3, 2, 1));
}

#[test]
fn kpps_sets_point_delay() {
    let mut data = header(1, b"d       ", 1);
    data.extend_from_slice(&[0, 0, 0, 0, 0, 0]);
    data.extend_from_slice(&header(0, b"end     ", 0));
    let frames = read_ilda(&data, 12).unwrap();
    assert_eq!(frames.get(b"d       ").unwrap()[0].delay, 83);
}

#[test]
fn default_palette_has_standard_entries() {
    let pal = ilda_default_palette();
    assert_eq!(pal.len(), 64);
    assert_eq!(pal[0], (255, 0, 0));
    assert_eq!(pal[16], (255, 255, 0));
    assert_eq!(pal[24], (0, 255, 0));
    assert_eq!(pal[40], (0, 0, 255));
    assert_eq!(pal[56], (255, 255, 255));
    assert_eq!(pal[63], (255, 32, 32));
}

#[test]
fn ilda_app_keeps_named_frame() {
    let mut data = header(1, b"ILDA Tes", 1);
    data.extend_from_slice(&[0, 0, 0, 0, 0, 0]);
    data.extend_from_slice(&header(0, b"end     ", 0));
    let app = galvo_vector::apps::Ilda::new(&data, 12, b"ILDA Tes").unwrap();
    assert!(galvo_vector::apps::Ilda::new(&data, 12, b"missing ").is_none());
    drop(app);
}
