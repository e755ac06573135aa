//! The binary show-file decoder: a sequential container of frame blocks,
//! each a fixed 32-byte header followed by point or palette records.
//!
//! A header carries a four-byte magic, a format code, an 8-byte name and
//! author, a record count and frame bookkeeping. A record count of zero
//! terminates the file. Formats 0 and 1 hold indexed-color points (with
//! and without a z axis), format 2 replaces the active palette, formats
//! 4 and 5 hold true-color points. Decoding reports truncation, a bad
//! magic and unsupported formats as errors instead of emitting garbage.

use vstd::prelude::*;

use crate::point::{Path, Point};

verus! {

/// Why a show file failed to decode.
#[derive(Clone, Copy, Debug, PartialEq, Eq, Structural)]
pub enum DecodeError {
    /// The buffer ended inside a header or a record.
    Truncated,
    /// A frame block did not start with the magic bytes.
    BadMagic,
    /// A header named a format code the decoder does not know.
    UnsupportedFormat,
}

/// The status-byte bit that marks the last point of a path.
pub const LASTPOINT_BIT: u8 = 0x80;

/// The status-byte bit that marks a blanked (beam off) point.
pub const BLANKING_BIT: u8 = 0x40;

/// A big-endian 16-bit value from two bytes.
pub open spec fn be_u16(b0: u8, b1: u8) -> int {
    b0 * 256 + b1
}

/// The signed reading of a big-endian 16-bit value.
pub open spec fn be_i16(b0: u8, b1: u8) -> int {
    if be_u16(b0, b1) >= 32768 {
        be_u16(b0, b1) - 65536
    } else {
        be_u16(b0, b1)
    }
}

/// A byte reader over a borrowed buffer, keeping its position.
pub struct Cursor<'a> {
    buf: &'a [u8],
    pos: usize,
}

impl<'a> Cursor<'a> {
    /// The position never passes the end of the buffer.
    pub closed spec fn wf(&self) -> bool {
        self.pos <= self.buf@.len()
    }

    /// The underlying bytes.
    pub closed spec fn sbuf(&self) -> Seq<u8> {
        self.buf@
    }

    /// The current read position.
    pub closed spec fn spos(&self) -> int {
        self.pos as int
    }

    /// A reader at the start of a buffer.
    pub fn new(buf: &'a [u8]) -> (r: Self)
        ensures
            r.wf(),
            r.sbuf() == buf@,
            r.spos() == 0,
    {
        Cursor { buf, pos: 0 }
    }

    /// How many bytes are left to read.
    pub fn remaining(&self) -> (r: usize)
        requires
            self.wf(),
        ensures
            r == self.sbuf().len() - self.spos(),
    {
        self.buf.len() - self.pos
    }

    /// Read `n` bytes.
    pub fn read(&mut self, n: usize) -> (r: Vec<u8>)
        requires
            old(self).wf(),
            old(self).spos() + n <= old(self).sbuf().len(),
        ensures
            final(self).wf(),
            final(self).sbuf() == old(self).sbuf(),
            final(self).spos() == old(self).spos() + n,
            r@ == old(self).sbuf().subrange(old(self).spos(), old(self).spos() + n),
    {
        let blen = self.buf.len();
        proof {
            assert(blen == self.buf@.len());
        }
        let mut out: Vec<u8> = Vec::new();
        let end = self.pos + n;
        let mut i: usize = self.pos;
        while i < end
            invariant
                self.pos <= i <= end <= self.buf@.len(),
                out@ =~= self.buf@.subrange(self.pos as int, i as int),
            decreases end - i,
        {
            out.push(self.buf[i]);
            i = i + 1;
        }
        self.pos = end;
        out
    }

    /// Read one byte.
    pub fn read_u8(&mut self) -> (r: u8)
        requires
            old(self).wf(),
            old(self).spos() + 1 <= old(self).sbuf().len(),
        ensures
            final(self).wf(),
            final(self).sbuf() == old(self).sbuf(),
            final(self).spos() == old(self).spos() + 1,
            r == old(self).sbuf()[old(self).spos()],
    {
        let v = self.buf[self.pos];
        self.pos = self.pos + 1;
        v
    }

    /// Read a big-endian unsigned 16-bit value.
    pub fn read_u16_be(&mut self) -> (r: u16)
        requires
            old(self).wf(),
            old(self).spos() + 2 <= old(self).sbuf().len(),
        ensures
            final(self).wf(),
            final(self).sbuf() == old(self).sbuf(),
            final(self).spos() == old(self).spos() + 2,
            r == be_u16(old(self).sbuf()[old(self).spos()], old(self).sbuf()[old(self).spos() + 1]),
    {
        let hi = self.buf[self.pos];
        let lo = self.buf[self.pos + 1];
        self.pos = self.pos + 2;
        hi as u16 * 256 + lo as u16
    }

    /// Read a big-endian signed 16-bit value.
    pub fn read_i16_be(&mut self) -> (r: i16)
        requires
            old(self).wf(),
            old(self).spos() + 2 <= old(self).sbuf().len(),
        ensures
            final(self).wf(),
            final(self).sbuf() == old(self).sbuf(),
            final(self).spos() == old(self).spos() + 2,
            r == be_i16(old(self).sbuf()[old(self).spos()], old(self).sbuf()[old(self).spos() + 1]),
    {
        let hi = self.buf[self.pos];
        let lo = self.buf[self.pos + 1];
        self.pos = self.pos + 2;
        let v: i32 = hi as i32 * 256 + lo as i32;
        if v >= 32768 {
            (v - 65536) as i16
        } else {
            v as i16
        }
    }

    /// Read a fixed-width byte string (a name or author field).
    pub fn read_string(&mut self, chars: usize) -> (r: Vec<u8>)
        requires
            old(self).wf(),
            old(self).spos() + chars <= old(self).sbuf().len(),
        ensures
            final(self).wf(),
            final(self).sbuf() == old(self).sbuf(),
            final(self).spos() == old(self).spos() + chars,
            r@ == old(self).sbuf().subrange(old(self).spos(), old(self).spos() + chars),
    {
        self.read(chars)
    }

    /// Skip `n` bytes.
    pub fn skip(&mut self, n: usize)
        requires
            old(self).wf(),
            old(self).spos() + n <= old(self).sbuf().len(),
        ensures
            final(self).wf(),
            final(self).sbuf() == old(self).sbuf(),
            final(self).spos() == old(self).spos() + n,
    {
        let blen = self.buf.len();
        proof {
            assert(blen == self.buf@.len());
        }
        self.pos = self.pos + n;
    }
}

/// The decoded frames, keyed by their 8-byte names; a later frame of the
/// same name replaces the earlier one.
#[derive(Debug)]
pub struct FrameMap {
    entries: Vec<(Vec<u8>, Path)>,
}

/// The spec-level picture of a list of named frames, later entries
/// overriding earlier ones.
pub open spec fn entries_model(s: Seq<(Vec<u8>, Path)>) -> Map<Seq<u8>, Seq<Point>>
    decreases s.len(),
{
    if s.len() == 0 {
        Map::empty()
    } else {
        entries_model(s.drop_last()).insert(s.last().0@, s.last().1@)
    }
}

impl FrameMap {
    /// Frame names are unique in the entry list.
    pub closed spec fn wf(&self) -> bool {
        forall|i: int, j: int|
            0 <= i < j < self.entries@.len() ==> self.entries@[i].0@ != self.entries@[j].0@
    }

    /// The spec-level picture: a map from frame name to point sequence.
    pub closed spec fn model(&self) -> Map<Seq<u8>, Seq<Point>> {
        entries_model(self.entries@)
    }

    /// An empty frame map.
    pub fn new() -> (r: Self)
        ensures
            r.wf(),
            r.model() == Map::<Seq<u8>, Seq<Point>>::empty(),
    {
        FrameMap { entries: Vec::new() }
    }

    /// The number of distinct frame names held.
    pub fn len(&self) -> (r: usize)
        requires
            self.wf(),
        ensures
            r == self.model().dom().len(),
    {
        proof {
            lemma_entries_model_len(self.entries@);
        }
        self.entries.len()
    }

    /// Insert a frame, replacing any earlier frame of the same name.
    #[verifier::loop_isolation(false)]
    pub fn insert(&mut self, name: Vec<u8>, path: Path)
        requires
            old(self).wf(),
        ensures
            final(self).wf(),
            final(self).model() == old(self).model().insert(name@, path@),
    {
        let ghost pre = self.entries@;
        let mut i: usize = 0;
        while i < self.entries.len()
            invariant
                0 <= i <= self.entries@.len(),
                self.entries@ == pre,
                forall|a: int, b: int| 0 <= a < b < pre.len() ==> pre[a].0@ != pre[b].0@,
                forall|k: int| 0 <= k < i ==> pre[k].0@ != name@,
            decreases self.entries@.len() - i,
        {
            if bytes_eq(&self.entries[i].0, &name) {
                self.entries[i] = (name, path);
                proof {
                    let e = self.entries@[i as int];
                    assert(e.0@ == name@ && e.1@ == path@);
                    assert(self.entries@ =~= pre.update(i as int, e));
                    lemma_entries_model_update(pre, i as int, e);
                    assert(self.model() == entries_model(pre).insert(name@, path@));
                }
                return ;
            }
            i = i + 1;
        }
        self.entries.push((name, path));
        proof {
            assert(self.entries@.drop_last() =~= pre);
        }
    }

    /// Look a frame up by its name.
    pub fn get(&self, name: &[u8]) -> (r: Option<&Path>)
        requires
            self.wf(),
        ensures
            match r {
                Option::Some(p) => self.model().contains_key(name@) && p@ == self.model()[name@],
                Option::None => !self.model().contains_key(name@),
            },
    {
        let mut i: usize = 0;
        while i < self.entries.len()
            invariant
                0 <= i <= self.entries@.len(),
                self.wf(),
                forall|k: int| 0 <= k < i ==> self.entries@[k].0@ != name@,
            decreases self.entries@.len() - i,
        {
            if bytes_eq(&self.entries[i].0, name) {
                proof {
                    lemma_entries_model_lookup(self.entries@, i as int);
                }
                return Some(&self.entries[i].1);
            }
            i = i + 1;
        }
        proof {
            lemma_entries_model_absent(self.entries@, name@);
        }
        None
    }
}

/// Byte-slice equality.
pub fn bytes_eq(a: &[u8], b: &[u8]) -> (r: bool)
    ensures
        r <==> a@ == b@,
{
    if a.len() != b.len() {
        proof {
            assert(a@.len() != b@.len());
        }
        return false;
    }
    let mut i: usize = 0;
    while i < a.len()
        invariant
            0 <= i <= a@.len(),
            a@.len() == b@.len(),
            forall|k: int| 0 <= k < i ==> a@[k] == b@[k],
        decreases a@.len() - i,
    {
        if a[i] != b[i] {
            return false;
        }
        i = i + 1;
    }
    proof {
        assert(a@ =~= b@);
    }
    true
}

/// Replacing the entry that holds a name gives the model's insert.
proof fn lemma_entries_model_update(s: Seq<(Vec<u8>, Path)>, i: int, e: (Vec<u8>, Path))
    requires
        0 <= i < s.len(),
        s[i].0@ == e.0@,
        forall|a: int, b: int| 0 <= a < b < s.len() ==> s[a].0@ != s[b].0@,
    ensures
        entries_model(s.update(i, e)) == entries_model(s).insert(e.0@, e.1@),
    decreases s.len(),
{
    let s2 = s.update(i, e);
    if i == s.len() - 1 {
        assert(s2.drop_last() =~= s.drop_last());
        assert(s2.last() == e);
        assert(entries_model(s2) == entries_model(s.drop_last()).insert(e.0@, e.1@));
        assert(entries_model(s).insert(e.0@, e.1@) =~= entries_model(s.drop_last()).insert(
            s.last().0@,
            s.last().1@,
        ).insert(e.0@, e.1@));
        assert(entries_model(s.drop_last()).insert(s.last().0@, s.last().1@).insert(e.0@, e.1@)
            =~= entries_model(s.drop_last()).insert(e.0@, e.1@));
    } else {
        assert(s2.drop_last() =~= s.drop_last().update(i, e));
        assert(s2.last() == s.last());
        lemma_entries_model_update(s.drop_last(), i, e);
        assert(entries_model(s2) == entries_model(s.drop_last()).insert(e.0@, e.1@).insert(
            s.last().0@,
            s.last().1@,
        ));
        assert(s.last().0@ != e.0@);
        assert(entries_model(s.drop_last()).insert(e.0@, e.1@).insert(s.last().0@, s.last().1@)
            =~= entries_model(s.drop_last()).insert(s.last().0@, s.last().1@).insert(
            e.0@,
            e.1@,
        ));
    }
}

/// The entry holding a name gives the model's value for it.
proof fn lemma_entries_model_lookup(s: Seq<(Vec<u8>, Path)>, i: int)
    requires
        0 <= i < s.len(),
        forall|a: int, b: int| 0 <= a < b < s.len() ==> s[a].0@ != s[b].0@,
    ensures
        entries_model(s).contains_key(s[i].0@),
        entries_model(s)[s[i].0@] == s[i].1@,
    decreases s.len(),
{
    if i == s.len() - 1 {
    } else {
        lemma_entries_model_lookup(s.drop_last(), i);
        assert(s.last().0@ != s[i].0@);
    }
}

/// A name no entry holds is not in the model.
proof fn lemma_entries_model_absent(s: Seq<(Vec<u8>, Path)>, name: Seq<u8>)
    requires
        forall|k: int| 0 <= k < s.len() ==> s[k].0@ != name,
    ensures
        !entries_model(s).contains_key(name),
    decreases s.len(),
{
    if s.len() > 0 {
        lemma_entries_model_absent(s.drop_last(), name);
    }
}

/// A raw signed 16-bit coordinate mapped to the 0..=255 device range.
pub open spec fn coord_to_dac(v: int) -> int {
    (v + 32768) / 256
}

/// The blanking flag of a status byte.
pub open spec fn spec_blanked(status: u8) -> bool {
    status & BLANKING_BIT != 0
}

/// The color of an indexed-color record: looked up in the active
/// palette (black when out of range), black when blanked.
pub open spec fn indexed_color(palette: Seq<(u8, u8, u8)>, status: u8, idx: u8) -> (u8, u8, u8) {
    if spec_blanked(status) {
        (0u8, 0u8, 0u8)
    } else if idx < palette.len() {
        palette[idx as int]
    } else {
        (0u8, 0u8, 0u8)
    }
}

/// The color of a true-color record: the three channel bytes, black
/// when blanked.
pub open spec fn true_color(status: u8, red: u8, green: u8, blue: u8) -> (u8, u8, u8) {
    if spec_blanked(status) {
        (0u8, 0u8, 0u8)
    } else {
        (red, green, blue)
    }
}

/// The byte size of one record of the given point format.
pub open spec fn rec_size(fmt: u8) -> int {
    if fmt == 0 {
        8
    } else if fmt == 1 {
        6
    } else if fmt == 4 {
        10
    } else {
        8
    }
}

/// The x device coordinate of a point record starting at `p`.
pub open spec fn rec_x(b: Seq<u8>, p: int) -> u8 {
    coord_to_dac(be_i16(b[p], b[p + 1])) as u8
}

/// The y device coordinate: the raw axis is inverted to the device's
/// down-positive convention.
pub open spec fn rec_y(b: Seq<u8>, p: int) -> u8 {
    (255 - coord_to_dac(be_i16(b[p + 2], b[p + 3]))) as u8
}

/// The point a record of format `fmt` starting at `p` decodes to.
pub open spec fn point_at(b: Seq<u8>, p: int, fmt: u8, palette: Seq<(u8, u8, u8)>, delay: u16)
    -> Point {
    if fmt == 0 {
        Point {
            x: rec_x(b, p),
            y: rec_y(b, p),
            color: indexed_color(palette, b[p + 6], b[p + 7]),
            delay,
        }
    } else if fmt == 1 {
        Point {
            x: rec_x(b, p),
            y: rec_y(b, p),
            color: indexed_color(palette, b[p + 4], b[p + 5]),
            delay,
        }
    } else if fmt == 4 {
        Point {
            x: rec_x(b, p),
            y: rec_y(b, p),
            color: true_color(b[p + 6], b[p + 7], b[p + 8], b[p + 9]),
            delay,
        }
    } else {
        Point {
            x: rec_x(b, p),
            y: rec_y(b, p),
            color: true_color(b[p + 4], b[p + 5], b[p + 6], b[p + 7]),
            delay,
        }
    }
}

/// The `n` points of a frame's records starting at `p`.
pub open spec fn points_of(
    b: Seq<u8>,
    p: int,
    n: int,
    fmt: u8,
    palette: Seq<(u8, u8, u8)>,
    delay: u16,
) -> Seq<Point> {
    Seq::new(n as nat, |j: int| point_at(b, p + j * rec_size(fmt), fmt, palette, delay))
}

/// The `n` color triples of a palette block starting at `p`.
pub open spec fn palette_of(b: Seq<u8>, p: int, n: int) -> Seq<(u8, u8, u8)> {
    Seq::new(n as nat, |j: int| (b[p + 3 * j], b[p + 3 * j + 1], b[p + 3 * j + 2]))
}

/// The four magic bytes `ILDA` at the start of a frame block.
pub open spec fn magic_ok(b: Seq<u8>, pos: int) -> bool {
    b[pos] == 73 && b[pos + 1] == 76 && b[pos + 2] == 68 && b[pos + 3] == 65
}

/// A header's format code.
pub open spec fn hdr_format(b: Seq<u8>, pos: int) -> u8 {
    b[pos + 7]
}

/// A header's 8-byte frame name.
pub open spec fn hdr_name(b: Seq<u8>, pos: int) -> Seq<u8> {
    b.subrange(pos + 8, pos + 16)
}

/// A header's record count.
pub open spec fn hdr_records(b: Seq<u8>, pos: int) -> int {
    be_u16(b[pos + 24], b[pos + 25])
}

/// A header's 8-byte author field.
pub open spec fn hdr_author(b: Seq<u8>, pos: int) -> Seq<u8> {
    b.subrange(pos + 16, pos + 24)
}

/// A header's frame number.
pub open spec fn hdr_frame_number(b: Seq<u8>, pos: int) -> int {
    be_u16(b[pos + 26], b[pos + 27])
}

/// A header's total frame count.
pub open spec fn hdr_total_frames(b: Seq<u8>, pos: int) -> int {
    be_u16(b[pos + 28], b[pos + 29])
}

/// A header's projector id.
pub open spec fn hdr_projector(b: Seq<u8>, pos: int) -> u8 {
    b[pos + 30]
}

/// The whole decode, block by block from `pos`: a frame map results
/// exactly when every block parses, each frame's points join the map
/// under its name (last write wins), palette blocks replace the active
/// palette for the records after them, and a zero-record header ends
/// the file.
pub open spec fn decode_rec(
    b: Seq<u8>,
    pos: int,
    palette: Seq<(u8, u8, u8)>,
    delay: u16,
    acc: Map<Seq<u8>, Seq<Point>>,
) -> Result<Map<Seq<u8>, Seq<Point>>, DecodeError>
    decreases b.len() - pos,
    via decode_rec_decreases
{
    if pos < 0 || pos + 32 > b.len() {
        Err(DecodeError::Truncated)
    } else if !magic_ok(b, pos) {
        Err(DecodeError::BadMagic)
    } else if hdr_records(b, pos) == 0 {
        Ok(acc)
    } else {
        let fmt = hdr_format(b, pos);
        let n = hdr_records(b, pos);
        if fmt == 0 || fmt == 1 || fmt == 4 || fmt == 5 {
            if pos + 32 + n * rec_size(fmt) > b.len() {
                Err(DecodeError::Truncated)
            } else {
                decode_rec(
                    b,
                    pos + 32 + n * rec_size(fmt),
                    palette,
                    delay,
                    acc.insert(hdr_name(b, pos), points_of(b, pos + 32, n, fmt, palette, delay)),
                )
            }
        } else if fmt == 2 {
            if pos + 32 + n * 3 > b.len() {
                Err(DecodeError::Truncated)
            } else {
                decode_rec(b, pos + 32 + n * 3, palette_of(b, pos + 32, n), delay, acc)
            }
        } else {
            Err(DecodeError::UnsupportedFormat)
        }
    }
}

#[via_fn]
proof fn decode_rec_decreases(
    b: Seq<u8>,
    pos: int,
    palette: Seq<(u8, u8, u8)>,
    delay: u16,
    acc: Map<Seq<u8>, Seq<Point>>,
) {
    if 0 <= pos && pos + 32 <= b.len() && magic_ok(b, pos) && hdr_records(b, pos) != 0 {
        let n = hdr_records(b, pos);
        let fmt = hdr_format(b, pos);
        assert(n * rec_size(fmt) >= 1) by (nonlinear_arith)
            requires n >= 1, rec_size(fmt) >= 3;
        assert(n * 3 >= 1) by (nonlinear_arith)
            requires n >= 1;
    }
}

/// The delay every decoded point carries, from the playback rate in
/// thousands of points per second: the whole milliseconds per point, and
/// the largest delay when the rate is zero.
pub open spec fn kpps_delay(kpps: u8) -> u16 {
    if kpps == 0 {
        65535u16
    } else {
        (1000int / (kpps as int)) as u16
    }
}

/// With unique names, the model has exactly one key per entry.
proof fn lemma_entries_model_len(s: Seq<(Vec<u8>, Path)>)
    requires
        forall|a: int, b: int| 0 <= a < b < s.len() ==> s[a].0@ != s[b].0@,
    ensures
        entries_model(s).dom().len() == s.len(),
        entries_model(s).dom().finite(),
    decreases s.len(),
{
    if s.len() > 0 {
        lemma_entries_model_len(s.drop_last());
        lemma_entries_model_absent(s.drop_last(), s.last().0@);
        assert(entries_model(s).dom() =~= entries_model(s.drop_last()).dom().insert(s.last().0@));
    }
}

/// The standard 64-entry default palette active before any palette
/// block: ramps from red through yellow, green, cyan, blue and magenta
/// to white and pink.
pub open spec fn spec_default_palette() -> Seq<(u8, u8, u8)> {
    seq![
        (255u8, 0u8, 0u8), (255u8, 16u8, 0u8), (255u8, 32u8, 0u8), (255u8, 48u8, 0u8),
        (255u8, 64u8, 0u8), (255u8, 80u8, 0u8), (255u8, 96u8, 0u8), (255u8, 112u8, 0u8),
        (255u8, 128u8, 0u8), (255u8, 144u8, 0u8), (255u8, 160u8, 0u8), (255u8, 176u8, 0u8),
        (255u8, 192u8, 0u8), (255u8, 208u8, 0u8), (255u8, 224u8, 0u8), (255u8, 240u8, 0u8),
        (255u8, 255u8, 0u8), (224u8, 255u8, 0u8), (192u8, 255u8, 0u8), (160u8, 255u8, 0u8),
        (128u8, 255u8, 0u8), (96u8, 255u8, 0u8), (64u8, 255u8, 0u8), (32u8, 255u8, 0u8),
        (0u8, 255u8, 0u8), (0u8, 255u8, 36u8), (0u8, 255u8, 73u8), (0u8, 255u8, 109u8),
        (0u8, 255u8, 146u8), (0u8, 255u8, 182u8), (0u8, 255u8, 219u8), (0u8, 255u8, 255u8),
        (0u8, 227u8, 255u8), (0u8, 198u8, 255u8), (0u8, 170u8, 255u8), (0u8, 142u8, 255u8),
        (0u8, 113u8, 255u8), (0u8, 85u8, 255u8), (0u8, 56u8, 255u8), (0u8, 28u8, 255u8),
        (0u8, 0u8, 255u8), (32u8, 0u8, 255u8), (64u8, 0u8, 255u8), (96u8, 0u8, 255u8),
        (128u8, 0u8, 255u8), (160u8, 0u8, 255u8), (192u8, 0u8, 255u8), (224u8, 0u8, 255u8),
        (255u8, 0u8, 255u8), (255u8, 32u8, 255u8), (255u8, 64u8, 255u8), (255u8, 96u8, 255u8),
        (255u8, 128u8, 255u8), (255u8, 160u8, 255u8), (255u8, 192u8, 255u8), (255u8, 224u8, 255u8),
        (255u8, 255u8, 255u8), (255u8, 224u8, 224u8), (255u8, 192u8, 192u8), (255u8, 160u8, 160u8),
        (255u8, 128u8, 128u8), (255u8, 96u8, 96u8), (255u8, 64u8, 64u8), (255u8, 32u8, 32u8),
    ]
}

/// Build the default palette.
pub fn ilda_default_palette() -> (r: Vec<(u8, u8, u8)>)
    ensures
        r@ == spec_default_palette(),
{
    let v: Vec<(u8, u8, u8)> = vec![
        (255u8, 0u8, 0u8), (255u8, 16u8, 0u8), (255u8, 32u8, 0u8), (255u8, 48u8, 0u8),
        (255u8, 64u8, 0u8), (255u8, 80u8, 0u8), (255u8, 96u8, 0u8), (255u8, 112u8, 0u8),
        (255u8, 128u8, 0u8), (255u8, 144u8, 0u8), (255u8, 160u8, 0u8), (255u8, 176u8, 0u8),
        (255u8, 192u8, 0u8), (255u8, 208u8, 0u8), (255u8, 224u8, 0u8), (255u8, 240u8, 0u8),
        (255u8, 255u8, 0u8), (224u8, 255u8, 0u8), (192u8, 255u8, 0u8), (160u8, 255u8, 0u8),
        (128u8, 255u8, 0u8), (96u8, 255u8, 0u8), (64u8, 255u8, 0u8), (32u8, 255u8, 0u8),
        (0u8, 255u8, 0u8), (0u8, 255u8, 36u8), (0u8, 255u8, 73u8), (0u8, 255u8, 109u8),
        (0u8, 255u8, 146u8), (0u8, 255u8, 182u8), (0u8, 255u8, 219u8), (0u8, 255u8, 255u8),
        (0u8, 227u8, 255u8), (0u8, 198u8, 255u8), (0u8, 170u8, 255u8), (0u8, 142u8, 255u8),
        (0u8, 113u8, 255u8), (0u8, 85u8, 255u8), (0u8, 56u8, 255u8), (0u8, 28u8, 255u8),
        (0u8, 0u8, 255u8), (32u8, 0u8, 255u8), (64u8, 0u8, 255u8), (96u8, 0u8, 255u8),
        (128u8, 0u8, 255u8), (160u8, 0u8, 255u8), (192u8, 0u8, 255u8), (224u8, 0u8, 255u8),
        (255u8, 0u8, 255u8), (255u8, 32u8, 255u8), (255u8, 64u8, 255u8), (255u8, 96u8, 255u8),
        (255u8, 128u8, 255u8), (255u8, 160u8, 255u8), (255u8, 192u8, 255u8), (255u8, 224u8, 255u8),
        (255u8, 255u8, 255u8), (255u8, 224u8, 224u8), (255u8, 192u8, 192u8), (255u8, 160u8, 160u8),
        (255u8, 128u8, 128u8), (255u8, 96u8, 96u8), (255u8, 64u8, 64u8), (255u8, 32u8, 32u8),
    ];
    proof {
        assert(v@ =~= spec_default_palette());
    }
    v
}

/// One frame block's header, read before its records.
pub struct IldaHeader {
    pub format: u8,
    pub name: Vec<u8>,
    pub author: Vec<u8>,
    pub num_records: u16,
    pub frame_number: u16,
    pub total_frames: u16,
    pub projector_number: u8,
}

/// The show-file parser: a cursor over the input, the active palette,
/// and the per-point delay derived from the playback rate.
pub struct Parser<'a> {
    cur: Cursor<'a>,
    palette: Vec<(u8, u8, u8)>,
    delay: u16,
}

impl<'a> Parser<'a> {
    /// The cursor stays within the buffer.
    pub closed spec fn wf(&self) -> bool {
        self.cur.wf()
    }

    /// The input bytes.
    pub closed spec fn sbuf(&self) -> Seq<u8> {
        self.cur.sbuf()
    }

    /// The current position.
    pub closed spec fn spos(&self) -> int {
        self.cur.spos()
    }

    /// The active palette.
    pub closed spec fn spal(&self) -> Seq<(u8, u8, u8)> {
        self.palette@
    }

    /// The per-point delay.
    pub closed spec fn sdelay(&self) -> u16 {
        self.delay
    }

    /// A parser at the start of a show file, with the default palette
    /// active and the point delay derived from the playback rate.
    pub fn new(data: &'a [u8], kpps: u8) -> (r: Self)
        ensures
            r.wf(),
            r.sbuf() == data@,
            r.spos() == 0,
            r.spal() == spec_default_palette(),
            r.sdelay() == kpps_delay(kpps),
    {
        let cur = Cursor::new(data);
        let delay: u16 = if kpps == 0 {
            65535
        } else {
            1000 / (kpps as u16)
        };
        Parser { cur, palette: ilda_default_palette(), delay }
    }

    /// Parse one 32-byte frame header.
    ///
    /// Fails with `Truncated` when fewer than 32 bytes remain and with
    /// `BadMagic` when the block does not start with the magic bytes;
    /// otherwise yields every header field and advances past the header.
    pub fn parse_header(&mut self) -> (r: Result<IldaHeader, DecodeError>)
        requires
            old(self).wf(),
        ensures
            final(self).wf(),
            final(self).sbuf() == old(self).sbuf(),
            final(self).spal() == old(self).spal(),
            final(self).sdelay() == old(self).sdelay(),
            old(self).spos() + 32 > old(self).sbuf().len() ==> r == Err::<
                IldaHeader,
                DecodeError,
            >(DecodeError::Truncated) && final(self).spos() == old(self).spos(),
            old(self).spos() + 32 <= old(self).sbuf().len() && !magic_ok(
                old(self).sbuf(),
                old(self).spos(),
            ) ==> r == Err::<IldaHeader, DecodeError>(DecodeError::BadMagic),
            old(self).spos() + 32 <= old(self).sbuf().len() && magic_ok(
                old(self).sbuf(),
                old(self).spos(),
            ) ==> {
                &&& r is Ok
                &&& final(self).spos() == old(self).spos() + 32
                &&& r->Ok_0.format == hdr_format(old(self).sbuf(), old(self).spos())
                &&& r->Ok_0.name@ == hdr_name(old(self).sbuf(), old(self).spos())
                &&& r->Ok_0.num_records == hdr_records(old(self).sbuf(), old(self).spos())
                &&& r->Ok_0.author@ == hdr_author(old(self).sbuf(), old(self).spos())
                &&& r->Ok_0.frame_number == hdr_frame_number(old(self).sbuf(), old(self).spos())
                &&& r->Ok_0.total_frames == hdr_total_frames(old(self).sbuf(), old(self).spos())
                &&& r->Ok_0.projector_number == hdr_projector(old(self).sbuf(), old(self).spos())
            },
    {
        if self.cur.remaining() < 32 {
            return Err(DecodeError::Truncated);
        }
        let m0 = self.cur.read_u8();
        let m1 = self.cur.read_u8();
        let m2 = self.cur.read_u8();
        let m3 = self.cur.read_u8();
        if !(m0 == 73 && m1 == 76 && m2 == 68 && m3 == 65) {
            return Err(DecodeError::BadMagic);
        }
        self.cur.skip(3);
        let format = self.cur.read_u8();
        let name = self.cur.read_string(8);
        let author = self.cur.read_string(8);
        let num_records = self.cur.read_u16_be();
        let frame_number = self.cur.read_u16_be();
        let total_frames = self.cur.read_u16_be();
        let projector_number = self.cur.read_u8();
        self.cur.skip(1);
        Ok(
            IldaHeader {
                format,
                name,
                author,
                num_records,
                frame_number,
                total_frames,
                projector_number,
            },
        )
    }

    /// Parse one indexed-color point record with a z axis.
    pub fn parse_record_fmt0(&mut self) -> (r: Point)
        requires
            old(self).wf(),
            old(self).spos() + 8 <= old(self).sbuf().len(),
        ensures
            final(self).wf(),
            final(self).sbuf() == old(self).sbuf(),
            final(self).spal() == old(self).spal(),
            final(self).sdelay() == old(self).sdelay(),
            final(self).spos() == old(self).spos() + 8,
            r == point_at(old(self).sbuf(), old(self).spos(), 0, old(self).spal(), old(self).sdelay()),
    {
        let x = self.cur.read_i16_be();
        let y = self.cur.read_i16_be();
        let _z = self.cur.read_i16_be();
        let status = self.cur.read_u8();
        let color_idx = self.cur.read_u8();
        Point {
            x: coord_to_dac_exec(x),
            y: 255 - coord_to_dac_exec(y),
            color: self.indexed_color_exec(status, color_idx),
            delay: self.delay,
        }
    }

    /// Parse one indexed-color point record without a z axis.
    pub fn parse_record_fmt1(&mut self) -> (r: Point)
        requires
            old(self).wf(),
            old(self).spos() + 6 <= old(self).sbuf().len(),
        ensures
            final(self).wf(),
            final(self).sbuf() == old(self).sbuf(),
            final(self).spal() == old(self).spal(),
            final(self).sdelay() == old(self).sdelay(),
            final(self).spos() == old(self).spos() + 6,
            r == point_at(old(self).sbuf(), old(self).spos(), 1, old(self).spal(), old(self).sdelay()),
    {
        let x = self.cur.read_i16_be();
        let y = self.cur.read_i16_be();
        let status = self.cur.read_u8();
        let color_idx = self.cur.read_u8();
        Point {
            x: coord_to_dac_exec(x),
            y: 255 - coord_to_dac_exec(y),
            color: self.indexed_color_exec(status, color_idx),
            delay: self.delay,
        }
    }

    /// Parse one palette record: a plain color triple.
    pub fn parse_record_fmt2(&mut self) -> (r: (u8, u8, u8))
        requires
            old(self).wf(),
            old(self).spos() + 3 <= old(self).sbuf().len(),
        ensures
            final(self).wf(),
            final(self).sbuf() == old(self).sbuf(),
            final(self).spal() == old(self).spal(),
            final(self).sdelay() == old(self).sdelay(),
            final(self).spos() == old(self).spos() + 3,
            r == (
                old(self).sbuf()[old(self).spos()],
                old(self).sbuf()[old(self).spos() + 1],
                old(self).sbuf()[old(self).spos() + 2],
            ),
    {
        (self.cur.read_u8(), self.cur.read_u8(), self.cur.read_u8())
    }

    /// Parse one true-color point record with a z axis.
    pub fn parse_record_fmt4(&mut self) -> (r: Point)
        requires
            old(self).wf(),
            old(self).spos() + 10 <= old(self).sbuf().len(),
        ensures
            final(self).wf(),
            final(self).sbuf() == old(self).sbuf(),
            final(self).spal() == old(self).spal(),
            final(self).sdelay() == old(self).sdelay(),
            final(self).spos() == old(self).spos() + 10,
            r == point_at(old(self).sbuf(), old(self).spos(), 4, old(self).spal(), old(self).sdelay()),
    {
        let x = self.cur.read_i16_be();
        let y = self.cur.read_i16_be();
        let _z = self.cur.read_i16_be();
        let status = self.cur.read_u8();
        let red = self.cur.read_u8();
        let green = self.cur.read_u8();
        let blue = self.cur.read_u8();
        Point {
            x: coord_to_dac_exec(x),
            y: 255 - coord_to_dac_exec(y),
            color: true_color_exec(status, red, green, blue),
            delay: self.delay,
        }
    }

    /// Parse one true-color point record without a z axis.
    pub fn parse_record_fmt5(&mut self) -> (r: Point)
        requires
            old(self).wf(),
            old(self).spos() + 8 <= old(self).sbuf().len(),
        ensures
            final(self).wf(),
            final(self).sbuf() == old(self).sbuf(),
            final(self).spal() == old(self).spal(),
            final(self).sdelay() == old(self).sdelay(),
            final(self).spos() == old(self).spos() + 8,
            r == point_at(old(self).sbuf(), old(self).spos(), 5, old(self).spal(), old(self).sdelay()),
    {
        let x = self.cur.read_i16_be();
        let y = self.cur.read_i16_be();
        let status = self.cur.read_u8();
        let red = self.cur.read_u8();
        let green = self.cur.read_u8();
        let blue = self.cur.read_u8();
        Point {
            x: coord_to_dac_exec(x),
            y: 255 - coord_to_dac_exec(y),
            color: true_color_exec(status, red, green, blue),
            delay: self.delay,
        }
    }

    /// Parse the whole show file from the current position.
    ///
    /// Succeeds exactly when every block is well formed up to a
    /// zero-record header, and then yields all accumulated frames; the
    /// error says what stopped the decode.
    #[verifier::loop_isolation(false)]
    pub fn parse_file(&mut self) -> (r: Result<FrameMap, DecodeError>)
        requires
            old(self).wf(),
        ensures
            final(self).wf(),
            match r {
                Ok(m) => m.wf() && decode_rec(
                    old(self).sbuf(),
                    old(self).spos(),
                    old(self).spal(),
                    old(self).sdelay(),
                    Map::empty(),
                ) == Ok::<Map<Seq<u8>, Seq<Point>>, DecodeError>(m.model()),
                Err(e) => decode_rec(
                    old(self).sbuf(),
                    old(self).spos(),
                    old(self).spal(),
                    old(self).sdelay(),
                    Map::empty(),
                ) == Err::<Map<Seq<u8>, Seq<Point>>, DecodeError>(e),
            },
    {
        let ghost b = self.sbuf();
        let ghost d = self.sdelay();
        let mut frames = FrameMap::new();
        loop
            invariant
                self.wf(),
                self.sbuf() == b,
                self.sdelay() == d,
                frames.wf(),
                decode_rec(b, old(self).spos(), old(self).spal(), d, Map::empty()) == decode_rec(
                    b,
                    self.spos(),
                    self.spal(),
                    d,
                    frames.model(),
                ),
            decreases b.len() - self.spos(),
        {
            let ghost pos0 = self.spos();
            let ghost pal0 = self.spal();
            let header = match self.parse_header() {
                Err(e) => {
                    return Err(e);
                },
                Ok(h) => h,
            };
            if header.num_records == 0 {
                return Ok(frames);
            }
            let n = header.num_records as usize;
            let fmt = header.format;
            if fmt == 0 || fmt == 1 || fmt == 4 || fmt == 5 {
                let size: usize = if fmt == 0 {
                    8
                } else if fmt == 1 {
                    6
                } else if fmt == 4 {
                    10
                } else {
                    8
                };
                proof {
                    assert(n * size <= 655350) by (nonlinear_arith)
                        requires n <= 65535usize, size <= 10usize;
                    assert(n * size >= 1) by (nonlinear_arith)
                        requires n >= 1usize, size >= 6usize;
                }
                if self.cur.remaining() < n * size {
                    return Err(DecodeError::Truncated);
                }
                let ghost pts = points_of(b, pos0 + 32, n as int, fmt, pal0, d);
                let mut path: Vec<Point> = Vec::new();
                let mut j: usize = 0;
                while j < n
                    invariant
                        self.wf(),
                        self.sbuf() == b,
                        self.spal() == pal0,
                        self.sdelay() == d,
                        0 <= j <= n,
                        size == rec_size(fmt),
                        fmt == 0 || fmt == 1 || fmt == 4 || fmt == 5,
                        self.spos() == pos0 + 32 + j * size,
                        pos0 + 32 + n * size <= b.len(),
                        pts == points_of(b, pos0 + 32, n as int, fmt, pal0, d),
                        path@ =~= pts.take(j as int),
                    decreases n - j,
                {
                    proof {
                        vstd::arithmetic::mul::lemma_mul_inequality(
                            j as int + 1,
                            n as int,
                            size as int,
                        );
                        assert((j + 1) * size == j * size + size) by (nonlinear_arith);
                    }
                    let p: Point = if fmt == 0 {
                        self.parse_record_fmt0()
                    } else if fmt == 1 {
                        self.parse_record_fmt1()
                    } else if fmt == 4 {
                        self.parse_record_fmt4()
                    } else {
                        self.parse_record_fmt5()
                    };
                    proof {
                        assert(pts[j as int] == point_at(
                            b,
                            pos0 + 32 + j * rec_size(fmt),
                            fmt,
                            pal0,
                            d,
                        ));
                        assert(pts.take(j + 1) =~= pts.take(j as int).push(pts[j as int]));
                    }
                    path.push(p);
                    j = j + 1;
                }
                proof {
                    assert(path@ =~= pts);
                }
                frames.insert(header.name, path);
            } else if fmt == 2 {
                proof {
                    assert(n * 3 <= 655350 && n * 3 >= 1) by (nonlinear_arith)
                        requires 1 <= n <= 65535usize;
                }
                if self.cur.remaining() < n * 3 {
                    return Err(DecodeError::Truncated);
                }
                let ghost newpal = palette_of(b, pos0 + 32, n as int);
                let mut pal: Vec<(u8, u8, u8)> = Vec::new();
                let mut j: usize = 0;
                while j < n
                    invariant
                        self.wf(),
                        self.sbuf() == b,
                        self.spal() == pal0,
                        self.sdelay() == d,
                        0 <= j <= n,
                        self.spos() == pos0 + 32 + j * 3,
                        pos0 + 32 + n * 3 <= b.len(),
                        newpal == palette_of(b, pos0 + 32, n as int),
                        pal@ =~= newpal.take(j as int),
                    decreases n - j,
                {
                    proof {
                        vstd::arithmetic::mul::lemma_mul_inequality(j as int + 1, n as int, 3);
                        assert((j + 1) * 3 == j * 3 + 3) by (nonlinear_arith);
                    }
                    let c = self.parse_record_fmt2();
                    proof {
                        assert(newpal[j as int] == (
                            b[pos0 + 32 + 3 * j],
                            b[pos0 + 32 + 3 * j + 1],
                            b[pos0 + 32 + 3 * j + 2],
                        ));
                        assert(newpal.take(j + 1) =~= newpal.take(j as int).push(
                            newpal[j as int],
                        ));
                    }
                    pal.push(c);
                    j = j + 1;
                }
                proof {
                    assert(pal@ =~= newpal);
                }
                self.palette = pal;
            } else {
                return Err(DecodeError::UnsupportedFormat);
            }
        }
    }

    /// Resolve an indexed color through the active palette.
    fn indexed_color_exec(&self, status: u8, idx: u8) -> (r: (u8, u8, u8))
        ensures
            r == indexed_color(self.spal(), status, idx),
    {
        if status & BLANKING_BIT != 0 {
            (0, 0, 0)
        } else if (idx as usize) < self.palette.len() {
            self.palette[idx as usize]
        } else {
            (0, 0, 0)
        }
    }
}

/// Resolve a true color from its channel bytes.
fn true_color_exec(status: u8, red: u8, green: u8, blue: u8) -> (r: (u8, u8, u8))
    ensures
        r == true_color(status, red, green, blue),
{
    if status & BLANKING_BIT != 0 {
        (0, 0, 0)
    } else {
        (red, green, blue)
    }
}

/// Map a raw signed coordinate into the device range.
fn coord_to_dac_exec(v: i16) -> (r: u8)
    ensures
        r == coord_to_dac(v as int),
        r <= 255,
{
    ((v as i32 + 32768) / 256) as u8
}

/// Decode a binary show file into its named frames.
///
/// Every decoded point carries the same delay, derived from the playback
/// rate; frames of the same name overwrite earlier ones. Truncated
/// input, a missing magic and an unknown format code are decode errors.
pub fn read_ilda(source: &[u8], kpps: u8) -> (r: Result<FrameMap, DecodeError>)
    ensures
        match r {
            Ok(m) => m.wf() && decode_rec(
                source@,
                0,
                spec_default_palette(),
                kpps_delay(kpps),
                Map::empty(),
            ) == Ok::<Map<Seq<u8>, Seq<Point>>, DecodeError>(m.model()),
            Err(e) => decode_rec(
                source@,
                0,
                spec_default_palette(),
                kpps_delay(kpps),
                Map::empty(),
            ) == Err::<Map<Seq<u8>, Seq<Point>>, DecodeError>(e),
        },
{
    let mut parser = Parser::new(source, kpps);
    parser.parse_file()
}

/// A show file whose first header has record count zero decodes to the
/// empty frame map, not an error.
pub proof fn lemma_zero_records_empty_map(b: Seq<u8>, palette: Seq<(u8, u8, u8)>, delay: u16)
    requires
        b.len() >= 32,
        magic_ok(b, 0),
        hdr_records(b, 0) == 0,
    ensures
        decode_rec(b, 0, palette, delay, Map::empty()) == Ok::<
            Map<Seq<u8>, Seq<Point>>,
            DecodeError,
        >(Map::empty()),
{
}

/// A format-0 frame block with `n` records decodes to exactly `n`
/// points under its name, each color resolved through the palette
/// active when the block is reached; the rest of the file continues
/// after the records with the palette unchanged.
pub proof fn lemma_fmt0_frame_points(
    b: Seq<u8>,
    pos: int,
    palette: Seq<(u8, u8, u8)>,
    delay: u16,
    acc: Map<Seq<u8>, Seq<Point>>,
)
    requires
        0 <= pos,
        pos + 32 <= b.len(),
        magic_ok(b, pos),
        hdr_format(b, pos) == 0,
        hdr_records(b, pos) >= 1,
        pos + 32 + hdr_records(b, pos) * 8 <= b.len(),
    ensures
        ({
            let n = hdr_records(b, pos);
            let pts = points_of(b, pos + 32, n, 0, palette, delay);
            &&& decode_rec(b, pos, palette, delay, acc) == decode_rec(
                b,
                pos + 32 + n * 8,
                palette,
                delay,
                acc.insert(hdr_name(b, pos), pts),
            )
            &&& pts.len() == n
            &&& forall|j: int|
                0 <= j < n ==> (#[trigger] pts[j]).color == indexed_color(
                    palette,
                    b[pos + 32 + 8 * j + 6],
                    b[pos + 32 + 8 * j + 7],
                )
        }),
{
    let n = hdr_records(b, pos);
    let pts = points_of(b, pos + 32, n, 0, palette, delay);
    assert forall|j: int| 0 <= j < n implies (#[trigger] pts[j]).color == indexed_color(
        palette,
        b[pos + 32 + 8 * j + 6],
        b[pos + 32 + 8 * j + 7],
    ) by {
        assert(pts[j] == point_at(b, pos + 32 + j * 8, 0, palette, delay));
        assert(pos + 32 + j * 8 + 6 == pos + 32 + 8 * j + 6) by (nonlinear_arith);
        assert(pos + 32 + j * 8 + 7 == pos + 32 + 8 * j + 7) by (nonlinear_arith);
    }
}

} // verus!
