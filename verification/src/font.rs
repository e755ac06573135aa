//! The stroke-font engine: parsing a textual stroke-font description into
//! glyphs, parsing codepage mapping descriptions, and laying out text as
//! raw stroke points.
//!
//! A font record is a fixed-width header -- five bytes of glyph id, one
//! ignored byte, two bytes of vertex count -- followed by coordinate
//! pairs, each byte giving an offset from the baseline character `R`.
//! The pair `(space, R)` is a pen-lift sentinel. Records longer than one
//! physical line continue over further lines of exactly 72 bytes.

use vstd::prelude::*;

use crate::parse::{
    all_digits, dec_val, is_digit, parse_dec_u64, spec_lines, split_lines, subvec, trim_sp,
    trim_spaces, valid_dec,
};

verus! {

/// The baseline character code (`R`) that coordinate bytes are offsets from.
pub const BASELINE: u8 = 82;

/// A glyph stroke point, relative to the glyph origin, with its pen flag.
/// A run of consecutive pen-down points is one continuous stroke; a point
/// with the pen up starts a new stroke without drawing.
#[derive(Clone, Copy, Debug, PartialEq, Eq, Structural)]
pub struct PackedPoint {
    pub x: i8,
    pub y: i8,
    pub pen: bool,
}

/// A laid-out stroke point produced by text rendering: the glyph stroke
/// translated by the advancing pen position.
#[derive(Clone, Copy, Debug, PartialEq, Eq, Structural)]
pub struct Point {
    pub x: i32,
    pub y: i32,
    pub pen: bool,
}

impl Default for Point {
    /// The origin with the pen up.
    fn default() -> (r: Self)
        ensures
            r.x == 0 && r.y == 0 && !r.pen,
    {
        Point { x: 0, y: 0, pen: false }
    }
}

/// One glyph: its side bearings in font units and its stroke points.
#[derive(Clone, Debug)]
pub struct Glyph {
    pub left: i8,
    pub right: i8,
    pub strokes: Vec<PackedPoint>,
}

/// The spec-level picture of a glyph: left bearing, right bearing, strokes.
pub type GlyphModel = (int, int, Seq<PackedPoint>);

/// The spec-level picture of a glyph value.
pub open spec fn glyph_model(g: Glyph) -> GlyphModel {
    (g.left as int, g.right as int, g.strokes@)
}

/// Stroke points of a record, scanned pairwise from byte `i`: the pair
/// `(space, R)` lifts the pen, any other pair is a coordinate with the
/// current pen state, and the pen is down after every coordinate.
pub open spec fn strokes_acc(s: Seq<u8>, i: int, pen: bool, acc: Seq<PackedPoint>) -> Seq<
    PackedPoint,
>
    decreases s.len() - i,
{
    if i < 0 || i + 2 > s.len() {
        acc
    } else if s[i] == 32 && s[i + 1] == BASELINE {
        strokes_acc(s, i + 2, false, acc)
    } else {
        strokes_acc(
            s,
            i + 2,
            true,
            acc.push(
                PackedPoint {
                    x: (s[i] - 82) as i8,
                    y: (s[i + 1] - 82) as i8,
                    pen: pen,
                },
            ),
        )
    }
}

/// All stroke points of a record: pairs start at byte 10, pen initially up.
pub open spec fn spec_strokes(rec: Seq<u8>) -> Seq<PackedPoint> {
    strokes_acc(rec, 10, false, Seq::empty())
}

/// The record's id field: the first five bytes, trimmed of spaces.
pub open spec fn id_field(rec: Seq<u8>) -> Seq<u8> {
    trim_sp(rec.subrange(0, 5))
}

/// Every coordinate byte (from byte 8 on) is plain ASCII.
pub open spec fn coords_ascii(rec: Seq<u8>) -> bool {
    forall|j: int| 8 <= j < rec.len() ==> #[trigger] rec[j] < 128
}

/// A well-formed glyph record: long enough to hold the header and the two
/// bearing bytes, a numeric id that fits 16 bits, ASCII coordinates.
pub open spec fn record_well_formed(rec: Seq<u8>) -> bool {
    rec.len() >= 10 && valid_dec(id_field(rec), 65535) && coords_ascii(rec)
}

impl Glyph {
    /// Parse one assembled glyph record.
    ///
    /// Succeeds exactly on well-formed records and then yields the glyph
    /// id, the bearings read from bytes 8 and 9, and the stroke list; a
    /// malformed record is reported so the loader can skip it.
    pub fn from_line(line: &[u8]) -> (r: Result<(u16, Glyph), ()>)
        ensures
            r is Ok <==> record_well_formed(line@),
            r is Ok ==> {
                let (id, g) = r->Ok_0;
                &&& id == dec_val(id_field(line@))
                &&& g.left == line@[8] - 82
                &&& g.right == line@[9] - 82
                &&& g.strokes@ == spec_strokes(line@)
            },
    {
        if line.len() < 10 {
            return Err(());
        }
        let id_bytes = subvec(line, 0, 5);
        let id_trimmed = trim_spaces(id_bytes.as_slice());
        let id: u16 = match parse_dec_u64(id_trimmed.as_slice(), 65535) {
            Ok(v) => v as u16,
            Err(_) => {
                return Err(());
            },
        };
        let mut j: usize = 8;
        while j < line.len()
            invariant
                8 <= j <= line@.len(),
                forall|k: int| 8 <= k < j ==> #[trigger] line@[k] < 128,
            decreases line@.len() - j,
        {
            if line[j] >= 128 {
                return Err(());
            }
            j = j + 1;
        }
        let left: i8 = (line[8] as i16 - 82) as i8;
        let right: i8 = (line[9] as i16 - 82) as i8;
        let mut strokes: Vec<PackedPoint> = Vec::new();
        let mut pen: bool = false;
        let mut i: usize = 10;
        proof {
            assert(strokes@ =~= Seq::<PackedPoint>::empty());
        }
        while i < line.len() - 1
            invariant
                10 <= i,
                i <= line@.len() + 2,
                coords_ascii(line@),
                line@.len() >= 10,
                spec_strokes(line@) == strokes_acc(line@, i as int, pen, strokes@),
            decreases line@.len() - i,
        {
            let a = line[i];
            let b = line[i + 1];
            if a == 32 && b == BASELINE {
                pen = false;
            } else {
                strokes.push(PackedPoint { x: (a as i16 - 82) as i8, y: (b as i16 - 82) as i8, pen });
                pen = true;
            }
            i = i + 2;
        }
        Ok((id, Glyph { left, right, strokes }))
    }
}

/// The number of glyph slots a font table holds.
pub const NUM_GLYPHS: usize = 2500;

/// The physical line length that marks a record as continuing on the
/// next line.
pub const CONTINUATION_LEN: usize = 72;

/// The index of the first line after the logical record starting at
/// line `i`: lines of exactly 72 bytes pull the following line in.
pub open spec fn record_end(lines: Seq<Seq<u8>>, i: int) -> int
    decreases lines.len() - i,
{
    if i < 0 || i >= lines.len() {
        i + 1
    } else if lines[i].len() != 72 {
        i + 1
    } else if i + 1 >= lines.len() {
        i + 1
    } else {
        record_end(lines, i + 1)
    }
}

/// The assembled text of the logical record starting at line `i`.
pub open spec fn record_text(lines: Seq<Seq<u8>>, i: int) -> Seq<u8>
    decreases lines.len() - i,
{
    if i < 0 || i >= lines.len() {
        Seq::empty()
    } else if lines[i].len() != 72 {
        lines[i]
    } else if i + 1 >= lines.len() {
        lines[i]
    } else {
        lines[i] + record_text(lines, i + 1)
    }
}

/// A logical record always consumes at least its first line and never
/// runs past the end.
pub proof fn lemma_record_end_bounds(lines: Seq<Seq<u8>>, i: int)
    requires
        0 <= i < lines.len(),
    ensures
        i < record_end(lines, i) <= lines.len(),
    decreases lines.len() - i,
{
    if lines[i].len() == 72 && i + 1 < lines.len() {
        lemma_record_end_bounds(lines, i + 1);
    }
}

/// The spec-level font table: one optional glyph picture per slot.
pub type FontModel = Seq<Option<GlyphModel>>;

/// The spec-level picture of an optional glyph slot.
pub open spec fn slot_model(o: Option<Glyph>) -> Option<GlyphModel> {
    match o {
        Option::None => Option::None,
        Option::Some(g) => Option::Some(glyph_model(g)),
    }
}

/// The spec-level picture of a font table.
pub open spec fn font_model(table: Seq<Option<Glyph>>) -> FontModel {
    table.map_values(|o: Option<Glyph>| slot_model(o))
}

/// The glyph picture parsed from one well-formed record.
pub open spec fn record_glyph(rec: Seq<u8>) -> GlyphModel {
    (rec[8] - 82, rec[9] - 82, spec_strokes(rec))
}

/// Loading a font description, processed line group by line group: empty
/// lines are skipped, each logical record is assembled and parsed, and a
/// well-formed record whose id is in range fills its slot (later records
/// win); malformed records are skipped.
pub open spec fn load_acc(lines: Seq<Seq<u8>>, i: int, table: FontModel) -> FontModel
    decreases lines.len() - i,
    via load_acc_decreases
{
    if i < 0 || i >= lines.len() {
        table
    } else if lines[i].len() == 0 {
        load_acc(lines, i + 1, table)
    } else {
        let rec = record_text(lines, i);
        let nxt = record_end(lines, i);
        let t2 = if record_well_formed(rec) && dec_val(id_field(rec)) < 2500 {
            table.update(dec_val(id_field(rec)), Option::Some(record_glyph(rec)))
        } else {
            table
        };
        load_acc(lines, if nxt > i { nxt } else { i + 1 }, t2)
    }
}

#[via_fn]
proof fn load_acc_decreases(lines: Seq<Seq<u8>>, i: int, table: FontModel) {
    if 0 <= i < lines.len() && lines[i].len() != 0 {
        lemma_record_end_bounds(lines, i);
    }
}

/// The font table described by a font text: all slots empty, then filled
/// record by record.
pub open spec fn spec_load_file(data: Seq<u8>) -> FontModel {
    load_acc(spec_lines(data), 0, Seq::new(NUM_GLYPHS as nat, |j: int| Option::None))
}

/// Load a stroke-font description into a glyph table.
///
/// The table has one slot per glyph id below `NUM_GLYPHS`; malformed or
/// out-of-range records are skipped, and a later record for the same id
/// replaces the earlier one.
pub fn load_file(data: &[u8]) -> (r: Vec<Option<Glyph>>)
    ensures
        r@.len() == NUM_GLYPHS,
        font_model(r@) == spec_load_file(data@),
{
    let lines = split_lines(data);
    let ghost lv = lines@.map_values(|v: Vec<u8>| v@);
    let mut table: Vec<Option<Glyph>> = Vec::new();
    while table.len() < NUM_GLYPHS
        invariant
            table@.len() <= NUM_GLYPHS,
            forall|k: int| 0 <= k < table@.len() ==> table@[k] is None,
        decreases NUM_GLYPHS - table@.len(),
    {
        table.push(None);
    }
    proof {
        assert(font_model(table@) =~= Seq::new(NUM_GLYPHS as nat, |j: int| Option::<
            GlyphModel,
        >::None));
    }
    let mut i: usize = 0;
    while i < lines.len()
        invariant
            0 <= i <= lv.len(),
            lv == lines@.map_values(|v: Vec<u8>| v@),
            lv.len() == lines@.len(),
            table@.len() == NUM_GLYPHS,
            spec_load_file(data@) == load_acc(lv, i as int, font_model(table@)),
        decreases lv.len() - i,
    {
        proof {
            assert(lv[i as int] == lines@[i as int]@);
        }
        if lines[i].len() == 0 {
            i = i + 1;
        } else {
            let mut full: Vec<u8> = subvec(lines[i].as_slice(), 0, lines[i].len());
            proof {
                assert(full@ =~= lv[i as int]);
            }
            let mut last_len: usize = lines[i].len();
            let mut j: usize = i + 1;
            while last_len == CONTINUATION_LEN && j < lines.len()
                invariant
                    i < j <= lv.len(),
                    lv == lines@.map_values(|v: Vec<u8>| v@),
                    lv.len() == lines@.len(),
                    last_len == lv[j - 1].len(),
                    record_text(lv, i as int) == full@ + (
                    if last_len == 72 && j < lv.len() {
                        record_text(lv, j as int)
                    } else {
                        Seq::<u8>::empty()
                    }),
                    record_end(lv, i as int) == (
                    if last_len == 72 && j < lv.len() {
                        record_end(lv, j as int)
                    } else {
                        j as int
                    }),
                decreases lv.len() - j,
            {
                proof {
                    assert(lv[j as int] == lines@[j as int]@);
                }
                let mut piece: Vec<u8> = subvec(lines[j].as_slice(), 0, lines[j].len());
                last_len = piece.len();
                full.append(&mut piece);
                j = j + 1;
            }
            proof {
                assert(full@ =~= record_text(lv, i as int));
                lemma_record_end_bounds(lv, i as int);
            }
            match Glyph::from_line(full.as_slice()) {
                Ok((id, glyph)) => {
                    if (id as usize) < NUM_GLYPHS {
                        let ghost pre = table@;
                        table[id as usize] = Some(glyph);
                        proof {
                            assert(glyph_model(glyph) == record_glyph(full@));
                            assert(font_model(table@) =~= font_model(pre).update(
                                id as int,
                                Option::Some(record_glyph(full@)),
                            ));
                        }
                    }
                },
                Err(_) => {},
            }
            i = j;
        }
    }
    proof {
        assert(load_acc(lv, lv.len() as int, font_model(table@)) == font_model(table@));
    }
    table
}

/// Index of the first space at or after `from`, or the length when none.
pub open spec fn find_sp(s: Seq<u8>, from: int) -> int
    decreases s.len() - from,
{
    if from < 0 || from >= s.len() {
        s.len() as int
    } else if s[from] == 32 {
        from
    } else {
        find_sp(s, from + 1)
    }
}

/// Consecutive codepoints assigned consecutive glyph ids, stopping
/// silently at the end of the 256-entry table.
pub open spec fn assign_range(table: Seq<u16>, cp: int, first: int, cnt: int) -> Seq<u16>
    decreases cnt,
{
    if cnt <= 0 || cp > 255 {
        table
    } else {
        assign_range(table.update(cp, first as u16), cp + 1, first + 1, cnt - 1)
    }
}

/// Mapping lines processed front to back. A line `first [last]` (with
/// `last` of `0` meaning `first`) assigns glyph ids `first..=last` to
/// codepoints from the running counter; lines that do not parse, and
/// ranges that do not fit 16 bits, are skipped without effect.
pub open spec fn map_acc(lines: Seq<Seq<u8>>, i: int, cp: int, table: Seq<u16>) -> Seq<u16>
    decreases lines.len() - i,
{
    if i < 0 || i >= lines.len() {
        table
    } else if lines[i].len() == 0 {
        map_acc(lines, i + 1, cp, table)
    } else {
        let line = lines[i];
        let k1 = find_sp(line, 0);
        if k1 >= line.len() {
            map_acc(lines, i + 1, cp, table)
        } else {
            let f1 = line.take(k1);
            let k2 = find_sp(line, k1 + 1);
            let f2 = line.subrange(k1 + 1, k2);
            if !valid_dec(f1, 0xffff_ffff_ffff_ffff) || !valid_dec(f2, 0xffff_ffff_ffff_ffff) {
                map_acc(lines, i + 1, cp, table)
            } else {
                let first = dec_val(f1);
                let last0 = dec_val(f2);
                let last = if last0 == 0 {
                    first
                } else {
                    last0
                };
                if first <= last <= 65535 {
                    map_acc(
                        lines,
                        i + 1,
                        cp + (last - first + 1),
                        assign_range(table, cp, first, last - first + 1),
                    )
                } else {
                    map_acc(lines, i + 1, cp, table)
                }
            }
        }
    }
}

/// The mapping table described by a mapping text: all entries start at
/// glyph id 0 ("no glyph"), codepoints are assigned from 32 upward.
pub open spec fn spec_load_mapping(data: Seq<u8>) -> Seq<u16> {
    map_acc(spec_lines(data), 0, 32, Seq::new(256, |j: int| 0u16))
}

/// A table of 256 codepoint-to-glyph-id entries, built by expanding the
/// inclusive numeric ranges of a mapping description.
pub struct FontMapping {
    codes: Vec<u16>,
}

impl FontMapping {
    /// The table is complete: one entry per 8-bit codepoint.
    pub closed spec fn wf(&self) -> bool {
        self.codes@.len() == 256
    }

    /// The spec-level picture of the table.
    pub closed spec fn model(&self) -> Seq<u16> {
        self.codes@
    }

    /// The glyph id mapped to a codepoint; id 0 means "no glyph".
    pub fn glyph_id(&self, codepoint: u8) -> (r: u16)
        requires
            self.wf(),
        ensures
            r == self.model()[codepoint as int],
    {
        self.codes[codepoint as usize]
    }
}

/// Load a codepage mapping description.
///
/// Every nonempty line `first [last]` assigns the inclusive glyph-id
/// range to consecutive codepoints starting at 32; `last` given as 0
/// means `first`. Malformed lines and ranges that do not fit 16 bits are
/// skipped silently, and assignments past codepoint 255 are dropped, so
/// the load always succeeds.
pub fn load_mapping(data: &[u8]) -> (r: Result<FontMapping, ()>)
    ensures
        r is Ok,
        r matches Ok(m) ==> m.wf() && m.model() == spec_load_mapping(data@),
{
    let lines = split_lines(data);
    let ghost lv = lines@.map_values(|v: Vec<u8>| v@);
    let mut codes: Vec<u16> = Vec::new();
    while codes.len() < 256
        invariant
            codes@.len() <= 256,
            forall|k: int| 0 <= k < codes@.len() ==> codes@[k] == 0u16,
        decreases 256 - codes@.len(),
    {
        codes.push(0);
    }
    proof {
        assert(codes@ =~= Seq::new(256, |j: int| 0u16));
    }
    let mut cp: usize = 32;
    let ghost mut gcp: int = 32;
    let mut i: usize = 0;
    while i < lines.len()
        invariant
            0 <= i <= lv.len(),
            lv == lines@.map_values(|v: Vec<u8>| v@),
            lv.len() == lines@.len(),
            codes@.len() == 256,
            cp == if gcp > 256 { 256int } else { gcp },
            32 <= cp <= 256,
            gcp >= 32,
            spec_load_mapping(data@) == map_acc(lv, i as int, gcp, codes@),
        decreases lv.len() - i,
    {
        proof {
            assert(lv[i as int] == lines@[i as int]@);
        }
        let line = &lines[i];
        if line.len() > 0 {
            let k1 = find_space(line.as_slice(), 0);
            if k1 < line.len() {
                let k2 = find_space(line.as_slice(), k1 + 1);
                let f1 = subvec(line.as_slice(), 0, k1);
                let f2 = subvec(line.as_slice(), k1 + 1, k2);
                proof {
                    assert(f1@ =~= lv[i as int].take(k1 as int));
                }
                let p1 = parse_dec_u64(f1.as_slice(), 0xffff_ffff_ffff_ffff);
                let p2 = parse_dec_u64(f2.as_slice(), 0xffff_ffff_ffff_ffff);
                if let (Ok(first), Ok(last0)) = (p1, p2) {
                    let last = if last0 == 0 {
                        first
                    } else {
                        last0
                    };
                    if first <= last && last <= 65535 {
                        let cnt: u64 = last - first + 1;
                        let ghost cnt0 = cnt as int;
                        let ghost cp0 = gcp;
                        let ghost codes0 = codes@;
                        let mut off: u64 = 0;
                        while off < cnt && cp < 256
                            invariant
                                0 <= off <= cnt,
                                cnt == last - first + 1,
                                first <= last <= 65535,
                                codes@.len() == 256,
                                cp == if gcp > 256 { 256int } else { gcp },
                                32 <= cp <= 256,
                                gcp == cp0 + off,
                                gcp >= 32,
                                assign_range(codes0, cp0, first as int, cnt as int)
                                    == assign_range(
                                    codes@,
                                    gcp,
                                    first as int + off,
                                    cnt as int - off,
                                ),
                            decreases cnt - off,
                        {
                            let id: u16 = (first + off) as u16;
                            codes[cp] = id;
                            cp = cp + 1;
                            off = off + 1;
                            proof {
                                gcp = gcp + 1;
                            }
                        }
                        proof {
                            if off < cnt {
                                // The table ran out; the remaining
                                // assignments fall past codepoint 255 and
                                // are dropped on both sides.
                                lemma_assign_range_saturated(
                                    codes@,
                                    gcp,
                                    first as int + off,
                                    cnt as int - off,
                                );
                                gcp = cp0 + cnt0;
                            } else {
                                gcp = cp0 + cnt0;
                            }
                            assert(cp == if gcp > 256 { 256int } else { gcp });
                        }
                    }
                }
            }
        }
        i = i + 1;
    }
    Ok(FontMapping { codes })
}

/// Once the cursor is past the table, a range assigns nothing.
proof fn lemma_assign_range_saturated(table: Seq<u16>, cp: int, first: int, cnt: int)
    requires
        cp > 255,
    ensures
        assign_range(table, cp, first, cnt) == table,
    decreases cnt,
{
}

/// Find the first space at or after `from`.
pub(crate) fn find_space(s: &[u8], from: usize) -> (r: usize)
    requires
        from <= s@.len(),
    ensures
        r == find_sp(s@, from as int),
        from <= r <= s@.len(),
    {
    let mut j: usize = from;
    while j < s.len() && s[j] != SP_BYTE
        invariant
            from <= j <= s@.len(),
            find_sp(s@, from as int) == find_sp(s@, j as int),
        decreases s@.len() - j,
    {
        j = j + 1;
    }
    j
}

/// Space, named for the search loop above.
const SP_BYTE: u8 = 32;

/// The stroke points of one glyph, translated to the pen position `x`.
pub open spec fn glyph_points(g: GlyphModel, x: int) -> Seq<Point> {
    g.2.map_values(
        |p: PackedPoint| Point { x: (p.x - g.0 + x) as i32, y: p.y as i32, pen: p.pen },
    )
}

/// Text layout, character by character: each mapped glyph's strokes are
/// emitted translated by the advancing pen position, and the pen advances
/// by the glyph's bearing difference; unmapped codepoints (glyph id 0,
/// out-of-range ids, empty slots) are skipped.
pub open spec fn render_acc(
    font: FontModel,
    codes: Seq<u16>,
    text: Seq<u8>,
    i: int,
    x: int,
    acc: Seq<Point>,
) -> Seq<Point>
    decreases text.len() - i,
{
    if i < 0 || i >= text.len() {
        acc
    } else {
        let id = codes[text[i] as int] as int;
        if id == 0 || id >= font.len() || font[id] is None {
            render_acc(font, codes, text, i + 1, x, acc)
        } else {
            let g = font[id]->Some_0;
            render_acc(font, codes, text, i + 1, x + g.1 - g.0, acc + glyph_points(g, x))
        }
    }
}

/// The laid-out stroke points of a text under a font and a mapping.
pub open spec fn spec_render(font: FontModel, codes: Seq<u16>, text: Seq<u8>) -> Seq<Point> {
    render_acc(font, codes, text, 0, 0, Seq::empty())
}

/// A stroke-font renderer: the glyph table loaded once from a font
/// description, then shared read-only by every text layout call.
pub struct HersheyRenderer {
    font: Vec<Option<Glyph>>,
}

impl HersheyRenderer {
    /// The table has one slot per glyph id.
    pub closed spec fn wf(&self) -> bool {
        self.font@.len() == NUM_GLYPHS
    }

    /// The spec-level picture of the loaded font.
    pub closed spec fn model(&self) -> FontModel {
        font_model(self.font@)
    }

    /// Load a renderer from a stroke-font description.
    pub fn new(data: &[u8]) -> (r: Self)
        ensures
            r.wf(),
            r.model() == spec_load_file(data@),
    {
        let font = load_file(data);
        HersheyRenderer { font }
    }

    /// Lay out a text: every mapped glyph's strokes, translated by the
    /// advancing pen position. An empty text yields no points, and the
    /// layout is a pure function of text, mapping and font.
    pub fn render_text(&self, text: &[u8], mapping: &FontMapping) -> (r: Vec<Point>)
        requires
            self.wf(),
            mapping.wf(),
            text@.len() <= 8000000,
        ensures
            r@ == spec_render(self.model(), mapping.model(), text@),
            text@.len() == 0 ==> r@.len() == 0,
    {
        let ghost font = self.model();
        let ghost codes = mapping.model();
        let mut result: Vec<Point> = Vec::new();
        let mut x_idx: i32 = 0;
        let mut i: usize = 0;
        proof {
            assert(result@ =~= Seq::<Point>::empty());
        }
        while i < text.len()
            invariant
                0 <= i <= text@.len(),
                text@.len() <= 8000000,
                self.wf(),
                mapping.wf(),
                font == self.model(),
                codes == mapping.model(),
                -255 * i <= x_idx as int <= 255 * i,
                spec_render(font, codes, text@) == render_acc(
                    font,
                    codes,
                    text@,
                    i as int,
                    x_idx as int,
                    result@,
                ),
            decreases text@.len() - i,
        {
            let cp = text[i];
            let id = mapping.glyph_id(cp) as usize;
            proof {
                assert(font.len() == NUM_GLYPHS);
            }
            if id != 0 && id < NUM_GLYPHS {
                proof {
                    assert(font[id as int] == slot_model(self.font@[id as int]));
                }
                match &self.font[id] {
                    Some(glyph) => {
                        let ghost g = font[id as int]->Some_0;
                        let ghost x0 = x_idx as int;
                        let ghost acc0 = result@;
                        let mut k: usize = 0;
                        while k < glyph.strokes.len()
                            invariant
                                0 <= k <= glyph.strokes@.len(),
                                g == glyph_model(*glyph),
                                x0 == x_idx as int,
                                -255 * i <= x0 <= 255 * i,
                                i < text@.len() <= 8000000,
                                result@ =~= acc0 + glyph_points(g, x0).take(k as int),
                            decreases glyph.strokes@.len() - k,
                        {
                            let p = glyph.strokes[k];
                            let px: i32 = p.x as i32 - glyph.left as i32 + x_idx;
                            proof {
                                assert(glyph_points(g, x0)[k as int] == Point {
                                    x: (p.x - g.0 + x0) as i32,
                                    y: p.y as i32,
                                    pen: p.pen,
                                });
                                assert(glyph_points(g, x0).take(k + 1) =~= glyph_points(
                                    g,
                                    x0,
                                ).take(k as int).push(glyph_points(g, x0)[k as int]));
                            }
                            result.push(Point { x: px, y: p.y as i32, pen: p.pen });
                            k = k + 1;
                        }
                        proof {
                            assert(result@ =~= acc0 + glyph_points(g, x0));
                        }
                        let advance: i32 = glyph.right as i32 - glyph.left as i32;
                        x_idx = x_idx + advance;
                    },
                    None => {},
                }
            }
            i = i + 1;
        }
        result
    }
}

/// Text layout is deterministic: rendering the same text twice with the
/// same font and mapping yields the same point sequence.
pub proof fn lemma_render_text_deterministic(
    font: FontModel,
    codes: Seq<u16>,
    text: Seq<u8>,
    r1: Seq<Point>,
    r2: Seq<Point>,
)
    requires
        r1 == spec_render(font, codes, text),
        r2 == spec_render(font, codes, text),
    ensures
        r1 == r2,
{
}

} // verus!
