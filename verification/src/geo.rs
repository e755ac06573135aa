//! The geographic pipeline: parsing annotated geographic polylines,
//! projecting them to a planar frame, clipping against a square window,
//! merging touching pieces, ordering them for short beam travel, and
//! normalizing for the scanner.
//!
//! Coordinates are carried as integers: geographic positions in
//! microdegrees, projected positions in millimeters, normalized
//! positions in thousandths of the window's half side.

use vstd::multiset::Multiset;
use vstd::prelude::*;

use crate::numeric::div_to_zero;
use crate::point::{Path, Point};
use crate::parse::{
    all_digits, dec_val, is_digit, parse_dec_u64, spec_lines, split_lines, subvec, trim_sp,
    trim_spaces, valid_hex_u32, hex_val, parse_hex_u32,
};

verus! {

/// A geographic coordinate in microdegrees of longitude and latitude.
#[derive(Clone, Copy, Debug, PartialEq, Eq, Structural)]
pub struct LatLon {
    pub lon_udeg: i64,
    pub lat_udeg: i64,
}

/// A projected planar position in millimeters (or, after normalizing,
/// in thousandths of the half window side).
#[derive(Clone, Copy, Debug, PartialEq, Eq, Structural)]
pub struct PlanarPoint {
    pub x: i64,
    pub y: i64,
}

/// An ordered run of points sharing one color.
#[derive(Debug)]
pub struct Polyline<T> {
    pub points: Vec<T>,
    pub color: (u8, u8, u8),
}

/// The spec-level picture of a geographic polyline.
pub open spec fn ll_model(l: Polyline<LatLon>) -> (Seq<LatLon>, (u8, u8, u8)) {
    (l.points@, l.color)
}

/// The spec-level picture of a planar polyline.
pub open spec fn pl_model(l: Polyline<PlanarPoint>) -> (Seq<PlanarPoint>, (u8, u8, u8)) {
    (l.points@, l.color)
}

/// Ten to a small power.
pub open spec fn pow10(n: nat) -> int
    decreases n,
{
    if n == 0 {
        1
    } else {
        10 * pow10((n - 1) as nat)
    }
}

/// Index of the first dot at or after `from`, or the length when none.
pub open spec fn find_dot(s: Seq<u8>, from: int) -> int
    decreases s.len() - from,
{
    if from < 0 || from >= s.len() {
        s.len() as int
    } else if s[from] == 46 {
        from
    } else {
        find_dot(s, from + 1)
    }
}

/// Index of the first non-space at or after `from`, or the length.
pub open spec fn find_non_sp(s: Seq<u8>, from: int) -> int
    decreases s.len() - from,
{
    if from < 0 || from >= s.len() {
        s.len() as int
    } else if s[from] != 32 {
        from
    } else {
        find_non_sp(s, from + 1)
    }
}

/// The microdegree value of a fraction field: its first six digits,
/// scaled up when fewer were written.
pub open spec fn frac_micro(f: Seq<u8>) -> int {
    if f.len() >= 6 {
        dec_val(f.take(6))
    } else {
        dec_val(f) * pow10((6 - f.len()) as nat)
    }
}

/// A well-formed decimal coordinate field: an optional minus sign, a
/// whole-degree part of up to three digits, and an optional dot with a
/// digit-only fraction.
pub open spec fn valid_coord(s: Seq<u8>) -> bool {
    let t = if s.len() > 0 && s[0] == 45 {
        s.drop_first()
    } else {
        s
    };
    let k = find_dot(t, 0);
    let ip = t.take(k);
    &&& t.len() >= 1
    &&& ip.len() >= 1
    &&& all_digits(ip)
    &&& dec_val(ip) <= 999
    &&& (k < t.len() ==> all_digits(t.subrange(k + 1, t.len() as int)))
}

/// The microdegree value of a decimal coordinate field.
pub open spec fn coord_udeg(s: Seq<u8>) -> int {
    let neg = s.len() > 0 && s[0] == 45;
    let t = if neg {
        s.drop_first()
    } else {
        s
    };
    let k = find_dot(t, 0);
    let ip = t.take(k);
    let f = if k < t.len() {
        t.subrange(k + 1, t.len() as int)
    } else {
        Seq::empty()
    };
    let mag = dec_val(ip) * 1000000 + frac_micro(f);
    if neg {
        -mag
    } else {
        mag
    }
}

/// A digit string's value stays below ten to its length.
proof fn lemma_dec_val_lt_pow10(s: Seq<u8>)
    requires
        all_digits(s),
    ensures
        0 <= dec_val(s) < pow10(s.len()),
    decreases s.len(),
{
    if s.len() > 0 {
        assert(all_digits(s.drop_last())) by {
            assert(forall|j: int|
                0 <= j < s.drop_last().len() ==> s.drop_last()[j] == s[j]);
        }
        lemma_dec_val_lt_pow10(s.drop_last());
    }
}

/// Powers of ten multiply by adding exponents.
proof fn lemma_pow10_add(a: nat, b: nat)
    ensures
        pow10(a) * pow10(b) == pow10((a + b) as nat),
    decreases a,
{
    if a == 0 {
    } else {
        lemma_pow10_add((a - 1) as nat, b);
        assert((10 * pow10((a - 1) as nat)) * pow10(b) == 10 * (pow10((a - 1) as nat) * pow10(b)))
            by (nonlinear_arith);
    }
}

/// Up to the sixth, a power of ten stays within a million.
proof fn lemma_pow10_le6(n: nat)
    requires
        n <= 6,
    ensures
        pow10(n) <= 1000000,
{
    assert(pow10(0) == 1);
    assert(pow10(1) == 10);
    assert(pow10(2) == 100);
    assert(pow10(3) == 1000);
    assert(pow10(4) == 10000);
    assert(pow10(5) == 100000);
    assert(pow10(6) == 1000000);
}

/// Powers of ten are positive.
proof fn lemma_pow10_pos(n: nat)
    ensures
        pow10(n) >= 1,
    decreases n,
{
    if n > 0 {
        lemma_pow10_pos((n - 1) as nat);
    }
}

/// Find the first dot at or after `from`.
fn find_dot_exec(s: &[u8], from: usize) -> (r: usize)
    requires
        from <= s@.len(),
    ensures
        r == find_dot(s@, from as int),
        from <= r <= s@.len(),
{
    let mut j: usize = from;
    while j < s.len() && s[j] != 46
        invariant
            from <= j <= s@.len(),
            find_dot(s@, from as int) == find_dot(s@, j as int),
        decreases s@.len() - j,
    {
        j = j + 1;
    }
    j
}

/// Find the first non-space at or after `from`.
pub(crate) fn find_non_sp_exec(s: &[u8], from: usize) -> (r: usize)
    requires
        from <= s@.len(),
    ensures
        r == find_non_sp(s@, from as int),
        from <= r <= s@.len(),
{
    let mut j: usize = from;
    while j < s.len() && s[j] == 32
        invariant
            from <= j <= s@.len(),
            find_non_sp(s@, from as int) == find_non_sp(s@, j as int),
        decreases s@.len() - j,
    {
        j = j + 1;
    }
    j
}

/// Dividing the fraction scale by ten per written digit.
fn pow10_exec(n: usize) -> (r: u64)
    requires
        n <= 6,
    ensures
        r == pow10(n as nat),
{
    proof {
        assert(pow10(0) == 1);
        assert(pow10(1) == 10);
        assert(pow10(2) == 100);
        assert(pow10(3) == 1000);
        assert(pow10(4) == 10000);
        assert(pow10(5) == 100000);
        assert(pow10(6) == 1000000);
    }
    if n == 0 {
        1
    } else if n == 1 {
        10
    } else if n == 2 {
        100
    } else if n == 3 {
        1000
    } else if n == 4 {
        10000
    } else if n == 5 {
        100000
    } else {
        1000000
    }
}

/// Parse a decimal coordinate field into microdegrees.
///
/// Succeeds exactly on an optional minus sign, up to three whole-degree
/// digits, and an optional dot with a digit-only fraction; the fraction
/// is read to microdegree precision (further digits only checked).
#[verifier::loop_isolation(false)]
pub fn parse_coord_udeg(s: &[u8]) -> (r: Result<i64, ()>)
    ensures
        r is Ok <==> valid_coord(s@),
        r is Ok ==> r->Ok_0 == coord_udeg(s@) && -999999999 <= r->Ok_0 <= 999999999,
{
    let neg = s.len() > 0 && s[0] == 45;
    let start: usize = if neg {
        1
    } else {
        0
    };
    let t = subvec(s, start, s.len());
    proof {
        if neg {
            assert(t@ =~= s@.drop_first());
        } else {
            assert(t@ =~= s@);
        }
    }
    if t.len() == 0 {
        return Err(());
    }
    let k = find_dot_exec(t.as_slice(), 0);
    let ip = subvec(t.as_slice(), 0, k);
    proof {
        assert(ip@ =~= t@.take(k as int));
    }
    let whole: u64 = match parse_dec_u64(ip.as_slice(), 999) {
        Ok(v) => v,
        Err(_) => {
            return Err(());
        },
    };
    let mut fval: u64 = 0;
    let mut fdigits: usize = 0;
    let ghost f = if k < t@.len() {
        t@.subrange(k as int + 1, t@.len() as int)
    } else {
        Seq::<u8>::empty()
    };
    if k < t.len() {
        let mut j: usize = k + 1;
        while j < t.len()
            invariant
                k < t@.len(),
                k + 1 <= j <= t@.len(),
                f == t@.subrange(k as int + 1, t@.len() as int),
                fdigits == if j - k - 1 > 6 { 6int } else { j - k - 1 },
                all_digits(f.take(j - k - 1)),
                fval == dec_val(f.take(fdigits as int)),
                fval <= 999999,
            decreases t@.len() - j,
        {
            let c = t[j];
            if c < 48 || c > 57 {
                proof {
                    assert(f[j - k - 1] == c);
                    assert(!is_digit(f[j - k - 1]));
                    assert(!all_digits(f));
                    assert(!valid_coord(s@)) by {
                        let tspec = if s@.len() > 0 && s@[0] == 45 {
                            s@.drop_first()
                        } else {
                            s@
                        };
                        assert(tspec == t@);
                        assert(find_dot(tspec, 0) == k);
                        assert(tspec.subrange(k as int + 1, tspec.len() as int) == f);
                    }
                }
                return Err(());
            }
            proof {
                assert(f.take(j - k) =~= f.take(j - k - 1).push(c));
                assert(f.take(j - k).drop_last() =~= f.take(j - k - 1));
            }
            if fdigits < 6 {
                proof {
                    crate::parse::lemma_dec_val_nonneg(f.take(fdigits as int));
                }
                fval = fval * 10 + (c - 48) as u64;
                fdigits = fdigits + 1;
                proof {
                    assert(f.take(fdigits as int).drop_last() =~= f.take(fdigits - 1));
                    assert(all_digits(f.take(fdigits as int))) by {
                        assert(forall|q: int|
                            0 <= q < fdigits ==> f.take(fdigits as int)[q] == f.take(
                                j - k,
                            )[q]);
                    }
                    lemma_dec_val_lt_pow10(f.take(fdigits as int));
                    lemma_pow10_le6(fdigits as nat);
                }
            }
            j = j + 1;
        }
        proof {
            assert(f.take(f.len() as int) =~= f);
        }
    }
    let scale = pow10_exec(6 - fdigits);
    proof {
        assert(all_digits(f.take(fdigits as int))) by {
            assert(forall|q: int|
                0 <= q < fdigits ==> f.take(fdigits as int)[q] == f.take(f.len() as int)[q]);
            assert(f.take(f.len() as int) =~= f);
        }
        lemma_dec_val_lt_pow10(f.take(fdigits as int));
        lemma_pow10_add(fdigits as nat, (6 - fdigits) as nat);
        lemma_pow10_pos((6 - fdigits) as nat);
        assert(pow10(6) == 1000000) by {
            assert(pow10(0) == 1);
            assert(pow10(1) == 10);
            assert(pow10(2) == 100);
            assert(pow10(3) == 1000);
            assert(pow10(4) == 10000);
            assert(pow10(5) == 100000);
            assert(pow10(6) == 1000000);
        }
        assert(fval * scale <= 999999) by (nonlinear_arith)
            requires
                0 <= fval,
                fval < pow10(fdigits as nat),
                scale == pow10((6 - fdigits) as nat),
                scale >= 1,
                pow10(fdigits as nat) * pow10((6 - fdigits) as nat) == 1000000,
        ;
        if f.len() < 6 {
            assert(f.take(fdigits as int) =~= f);
        }
    }
    let micro: u64 = whole * 1000000 + fval * scale;
    let signed: i64 = if neg {
        -(micro as i64)
    } else {
        micro as i64
    };
    Ok(signed)
}

/// A parsed coordinate stays within three whole degrees' digits.
pub open spec fn ll_in_range(p: LatLon) -> bool {
    -999999999 <= p.lon_udeg <= 999999999 && -999999999 <= p.lat_udeg <= 999999999
}

/// The color triple packed in the low 24 bits of a hex value.
pub open spec fn rgb_of(v: int) -> (u8, u8, u8) {
    (((v / 65536) % 256) as u8, ((v / 256) % 256) as u8, (v % 256) as u8)
}

/// A finished polyline joins the output only when it has at least two
/// points and a color has been declared.
pub open spec fn flush_poly(
    cur: Seq<LatLon>,
    color: Option<(u8, u8, u8)>,
    acc: Seq<(Seq<LatLon>, (u8, u8, u8))>,
) -> Seq<(Seq<LatLon>, (u8, u8, u8))> {
    if cur.len() >= 2 && color is Some {
        acc.push((cur, color->0))
    } else {
        acc
    }
}

/// Parsing the polyline text line by line: a blank line ends the current
/// polyline, a `#RRGGBB` line ends it and sets the color of the
/// following polylines, any other line is a `longitude latitude` pair;
/// malformed color and coordinate lines are skipped.
pub open spec fn geo_acc(
    lines: Seq<Seq<u8>>,
    i: int,
    cur: Seq<LatLon>,
    color: Option<(u8, u8, u8)>,
    acc: Seq<(Seq<LatLon>, (u8, u8, u8))>,
) -> Seq<(Seq<LatLon>, (u8, u8, u8))>
    decreases lines.len() - i,
{
    if i < 0 || i >= lines.len() {
        flush_poly(cur, color, acc)
    } else {
        let line = trim_sp(lines[i]);
        if line.len() == 0 {
            geo_acc(lines, i + 1, Seq::empty(), color, flush_poly(cur, color, acc))
        } else if line[0] == 35 {
            let acc2 = flush_poly(cur, color, acc);
            let hex = line.subrange(1, line.len() as int);
            if valid_hex_u32(hex) {
                geo_acc(lines, i + 1, Seq::empty(), Some(rgb_of(hex_val(hex))), acc2)
            } else {
                geo_acc(lines, i + 1, Seq::empty(), color, acc2)
            }
        } else {
            let k1 = crate::font::find_sp(line, 0);
            let tok1 = line.take(k1);
            let s2 = find_non_sp(line, k1);
            let k2 = crate::font::find_sp(line, s2);
            let tok2 = line.subrange(s2, k2);
            if valid_coord(tok1) && valid_coord(tok2) {
                geo_acc(
                    lines,
                    i + 1,
                    cur.push(
                        LatLon {
                            lon_udeg: coord_udeg(tok1) as i64,
                            lat_udeg: coord_udeg(tok2) as i64,
                        },
                    ),
                    color,
                    acc,
                )
            } else {
                geo_acc(lines, i + 1, cur, color, acc)
            }
        }
    }
}

/// The polylines described by a geographic text.
pub open spec fn spec_parse_latlon(data: Seq<u8>) -> Seq<(Seq<LatLon>, (u8, u8, u8))> {
    geo_acc(spec_lines(data), 0, Seq::empty(), None, Seq::empty())
}

/// Parse a geographic polyline description.
///
/// Blank lines separate polylines, `#RRGGBB` lines set the color of the
/// polylines after them, and every other line is a `longitude latitude`
/// pair in decimal degrees. Polylines shorter than two points, and
/// polylines before the first color, are dropped; malformed lines are
/// skipped.
#[verifier::loop_isolation(false)]
pub fn parse_latlon_file(data: &[u8]) -> (r: Vec<Polyline<LatLon>>)
    ensures
        r@.map_values(|l: Polyline<LatLon>| ll_model(l)) == spec_parse_latlon(data@),
        forall|i: int|
            0 <= i < r@.len() ==> (#[trigger] r@[i]).points@.len() >= 2 && forall|j: int|
                0 <= j < r@[i].points@.len() ==> ll_in_range(#[trigger] r@[i].points@[j]),
{
    let lines = split_lines(data);
    let ghost lv = lines@.map_values(|v: Vec<u8>| v@);
    let mut out: Vec<Polyline<LatLon>> = Vec::new();
    let mut cur: Vec<LatLon> = Vec::new();
    let mut color: Option<(u8, u8, u8)> = None;
    let mut i: usize = 0;
    proof {
        assert(out@.map_values(|l: Polyline<LatLon>| ll_model(l)) =~= Seq::<
            (Seq<LatLon>, (u8, u8, u8)),
        >::empty());
        assert(cur@ =~= Seq::<LatLon>::empty());
    }
    while i < lines.len()
        invariant
            0 <= i <= lv.len(),
            lv.len() == lines@.len(),
            spec_parse_latlon(data@) == geo_acc(
                lv,
                i as int,
                cur@,
                color,
                out@.map_values(|l: Polyline<LatLon>| ll_model(l)),
            ),
            forall|k: int| 0 <= k < cur@.len() ==> ll_in_range(#[trigger] cur@[k]),
            forall|k: int|
                0 <= k < out@.len() ==> (#[trigger] out@[k]).points@.len() >= 2 && forall|j: int|
                    0 <= j < out@[k].points@.len() ==> ll_in_range(#[trigger] out@[k].points@[j]),
        decreases lv.len() - i,
    {
        proof {
            assert(lv[i as int] == lines@[i as int]@);
        }
        let ghost acc0 = out@.map_values(|l: Polyline<LatLon>| ll_model(l));
        let lt = trim_spaces(lines[i].as_slice());
        if lt.len() == 0 {
            if cur.len() >= 2 && color.is_some() {
                let c = color.unwrap();
                out.push(Polyline { points: cur, color: c });
                proof {
                    assert(out@.map_values(|l: Polyline<LatLon>| ll_model(l)) =~= acc0.push(
                        (cur@, c),
                    ));
                }
            }
            cur = Vec::new();
        } else if lt[0] == 35 {
            if cur.len() >= 2 && color.is_some() {
                let c = color.unwrap();
                out.push(Polyline { points: cur, color: c });
                proof {
                    assert(out@.map_values(|l: Polyline<LatLon>| ll_model(l)) =~= acc0.push(
                        (cur@, c),
                    ));
                }
            }
            cur = Vec::new();
            let hex = subvec(lt.as_slice(), 1, lt.len());
            proof {
                assert(hex@ =~= trim_sp(lv[i as int]).subrange(
                    1,
                    trim_sp(lv[i as int]).len() as int,
                ));
            }
            match parse_hex_u32(hex.as_slice()) {
                Ok(v) => {
                    color = Some(
                        (
                            ((v / 65536) % 256) as u8,
                            ((v / 256) % 256) as u8,
                            (v % 256) as u8,
                        ),
                    );
                },
                Err(_) => {},
            }
        } else {
            let k1 = crate::font::find_space(lt.as_slice(), 0);
            let tok1 = subvec(lt.as_slice(), 0, k1);
            let s2 = find_non_sp_exec(lt.as_slice(), k1);
            let k2 = crate::font::find_space(lt.as_slice(), s2);
            let tok2 = subvec(lt.as_slice(), s2, k2);
            proof {
                assert(tok1@ =~= trim_sp(lv[i as int]).take(k1 as int));
            }
            let p1 = parse_coord_udeg(tok1.as_slice());
            let p2 = parse_coord_udeg(tok2.as_slice());
            if let (Ok(lon), Ok(lat)) = (p1, p2) {
                cur.push(LatLon { lon_udeg: lon, lat_udeg: lat });
            }
        }
        i = i + 1;
    }
    if cur.len() >= 2 && color.is_some() {
        let c = color.unwrap();
        let ghost acc0 = out@.map_values(|l: Polyline<LatLon>| ll_model(l));
        out.push(Polyline { points: cur, color: c });
        proof {
            assert(out@.map_values(|l: Polyline<LatLon>| ll_model(l)) =~= acc0.push((cur@, c)));
        }
    }
    out
}

/// Meters per degree of latitude in the equirectangular approximation.
pub const METERS_PER_DEG: i64 = 111320;

/// The projected x position in millimeters: the longitude difference,
/// shortened by the cosine of the center latitude (given in parts per
/// million), at the fixed meters-per-degree scale, staged to stay within
/// machine range.
pub open spec fn project_x(dlon_udeg: int, cos_ppm: int) -> int {
    div_to_zero(div_to_zero(dlon_udeg * cos_ppm, 1000) * 111320, 1000000)
}

/// The projected y position in millimeters.
pub open spec fn project_y(dlat_udeg: int) -> int {
    div_to_zero(dlat_udeg * 111320, 1000)
}

/// Project a geographic coordinate to the planar frame centered on
/// `(lat0, lon0)`, in millimeters.
pub fn project(ll: LatLon, lat0_udeg: i64, lon0_udeg: i64, cos_lat0_ppm: i64) -> (r: PlanarPoint)
    requires
        -1000000000 <= ll.lon_udeg <= 1000000000,
        -1000000000 <= ll.lat_udeg <= 1000000000,
        -1000000000 <= lon0_udeg <= 1000000000,
        -1000000000 <= lat0_udeg <= 1000000000,
        0 <= cos_lat0_ppm <= 1000000,
    ensures
        r.x == project_x(ll.lon_udeg - lon0_udeg, cos_lat0_ppm as int),
        r.y == project_y(ll.lat_udeg - lat0_udeg),
        -250000000000 <= r.x <= 250000000000,
        -250000000000 <= r.y <= 250000000000,
{
    let dlon: i64 = ll.lon_udeg - lon0_udeg;
    let dlat: i64 = ll.lat_udeg - lat0_udeg;
    proof {
        assert(-2000000000000000int <= dlon * cos_lat0_ppm <= 2000000000000000int)
            by (nonlinear_arith)
            requires -2000000000i64 <= dlon <= 2000000000i64, 0 <= cos_lat0_ppm <= 1000000i64;
    }
    let t1: i64 = crate::numeric::div_to_zero_i64(dlon * cos_lat0_ppm, 1000);
    proof {
        assert(-222640000000000000int <= t1 * 111320 <= 222640000000000000int)
            by (nonlinear_arith)
            requires -2000000000000i64 <= t1 <= 2000000000000i64;
        assert(-222640000000000int <= dlat * 111320 <= 222640000000000int) by (nonlinear_arith)
            requires -2000000000i64 <= dlat <= 2000000000i64;
    }
    let x: i64 = crate::numeric::div_to_zero_i64(t1 * 111320, 1000000);
    let y: i64 = crate::numeric::div_to_zero_i64(dlat * 111320, 1000);
    PlanarPoint { x, y }
}

/// A point inside (or on the edge of) the square window of half side
/// `half`.
pub open spec fn inside_window(p: PlanarPoint, half: int) -> bool {
    -half <= p.x <= half && -half <= p.y <= half
}

/// Both endpoints past the same window side: the plainest way a segment
/// lies fully outside.
pub open spec fn beyond_one_side(a: PlanarPoint, b: PlanarPoint, half: int) -> bool {
    (a.x > half && b.x > half) || (a.x < -half && b.x < -half) || (a.y > half && b.y > half) || (
    a.y < -half && b.y < -half)
}

/// One step of the parametric clip: the running window `[t0, t1]` of the
/// segment parameter, each bound a fraction with positive denominator,
/// cut down by the constraint `p * t <= q`.
pub open spec fn clip_update(t: (int, int, int, int), p: int, q: int) -> Option<
    (int, int, int, int),
> {
    if p == 0 {
        if q < 0 {
            None
        } else {
            Some(t)
        }
    } else {
        let rn = if p > 0 {
            q
        } else {
            -q
        };
        let rd = if p > 0 {
            p
        } else {
            -p
        };
        if p < 0 {
            if rn * t.3 > t.2 * rd {
                None
            } else if rn * t.1 > t.0 * rd {
                Some((rn, rd, t.2, t.3))
            } else {
                Some(t)
            }
        } else {
            if rn * t.1 < t.0 * rd {
                None
            } else if rn * t.3 < t.2 * rd {
                Some((t.0, t.1, rn, rd))
            } else {
                Some(t)
            }
        }
    }
}

/// The clipped segment: the four window sides cut the parameter range
/// `[0, 1]` down; when a range is left, its ends give the clipped
/// endpoints, rounded toward the segment start.
pub open spec fn spec_clip(a: PlanarPoint, b: PlanarPoint, half: int) -> Option<
    (PlanarPoint, PlanarPoint),
> {
    let dx = b.x - a.x;
    let dy = b.y - a.y;
    let s0 = clip_update((0, 1, 1, 1), -dx, a.x + half);
    if s0 is None {
        None
    } else {
        let s1 = clip_update(s0->0, dx, half - a.x);
        if s1 is None {
            None
        } else {
            let s2 = clip_update(s1->0, -dy, a.y + half);
            if s2 is None {
                None
            } else {
                let s3 = clip_update(s2->0, dy, half - a.y);
                if s3 is None {
                    None
                } else {
                    let t = s3->0;
                    Some(
                        (
                            PlanarPoint {
                                x: (a.x + div_to_zero(t.0 * dx, t.1)) as i64,
                                y: (a.y + div_to_zero(t.0 * dy, t.1)) as i64,
                            },
                            PlanarPoint {
                                x: (a.x + div_to_zero(t.2 * dx, t.3)) as i64,
                                y: (a.y + div_to_zero(t.2 * dy, t.3)) as i64,
                            },
                        ),
                    )
                }
            }
        }
    }
}

/// Clip a segment against the axis-aligned square window of half side
/// `half`. A segment fully inside comes back unchanged, and a segment
/// fully past one window side comes back empty.
#[verifier::rlimit(100)]
pub fn clip_segment(a: PlanarPoint, b: PlanarPoint, half: i64) -> (r: Option<
    (PlanarPoint, PlanarPoint),
>)
    requires
        1 <= half <= 1000000000000,
        -1000000000000 <= a.x <= 1000000000000,
        -1000000000000 <= a.y <= 1000000000000,
        -1000000000000 <= b.x <= 1000000000000,
        -1000000000000 <= b.y <= 1000000000000,
    ensures
        r == spec_clip(a, b, half as int),
        inside_window(a, half as int) && inside_window(b, half as int) ==> r == Some((a, b)),
        beyond_one_side(a, b, half as int) ==> r is None,
        !seg_meets_window(a, b, half as int) ==> r is None,
        r matches Some(cc) ==> between(cc.0.x as int, a.x as int, b.x as int) && between(
            cc.0.y as int,
            a.y as int,
            b.y as int,
        ) && between(cc.1.x as int, a.x as int, b.x as int) && between(
            cc.1.y as int,
            a.y as int,
            b.y as int,
        ),
{
    let dx: i64 = b.x - a.x;
    let dy: i64 = b.y - a.y;
    let mut t0n: i64 = 0;
    let mut t0d: i64 = 1;
    let mut t1n: i64 = 1;
    let mut t1d: i64 = 1;
    let mut out: bool = false;
    let mut c: usize = 0;
    // The four constraints, processed in a fixed order.
    while c < 4
        invariant
            0 <= c <= 4,
            !out ==> clip_fold(a, b, half as int, c as int) == Some(
                (t0n as int, t0d as int, t1n as int, t1d as int),
            ),
            out ==> clip_fold(a, b, half as int, 4) is None,
            1 <= half <= 1000000000000,
            -1000000000000 <= a.x <= 1000000000000,
            -1000000000000 <= a.y <= 1000000000000,
            -1000000000000 <= b.x <= 1000000000000,
            -1000000000000 <= b.y <= 1000000000000,
            1 <= t0d <= 4000000000000,
            1 <= t1d <= 4000000000000,
            -4000000000000 <= t0n <= 4000000000000,
            -4000000000000 <= t1n <= 4000000000000,
            dx == b.x - a.x,
            dy == b.y - a.y,
        decreases 4 - c,
    {
        if !out {
            let (p, q): (i64, i64) = if c == 0 {
                (-dx, a.x + half)
            } else if c == 1 {
                (dx, half - a.x)
            } else if c == 2 {
                (-dy, a.y + half)
            } else {
                (dy, half - a.y)
            };
            if p == 0 {
                if q < 0 {
                    out = true;
                }
            } else {
                let rn: i64 = if p > 0 {
                    q
                } else {
                    -q
                };
                let rd: i64 = if p > 0 {
                    p
                } else {
                    -p
                };
                if p < 0 {
                    if frac_gt(rn, rd, t1n, t1d) {
                        out = true;
                    } else if frac_gt(rn, rd, t0n, t0d) {
                        t0n = rn;
                        t0d = rd;
                    }
                } else {
                    if frac_lt(rn, rd, t0n, t0d) {
                        out = true;
                    } else if frac_lt(rn, rd, t1n, t1d) {
                        t1n = rn;
                        t1d = rd;
                    }
                }
            }
            proof {
                lemma_clip_fold_step(a, b, half as int, c as int);
            }
        }
        c = c + 1;
    }
    if out {
        proof {
            lemma_spec_clip_is_fold(a, b, half as int);
            lemma_clip_ends(a, b, half as int);
        }
        return None;
    }
    proof {
        lemma_spec_clip_is_fold(a, b, half as int);
        lemma_clip_state_wf_at(a, b, half as int, 4);
        assert(0 <= t0n as int <= t0d as int) by (nonlinear_arith)
            requires
                (t0n as int) * (t1d as int) <= (t1n as int) * (t0d as int),
                0 <= t1n as int <= t1d as int,
                t1d as int >= 1,
                t0d as int >= 1,
                t0n as int >= 0,
        ;
    }
    let cax: i64 = a.x + scale_coord(t0n, t0d, dx);
    let cay: i64 = a.y + scale_coord(t0n, t0d, dy);
    let cbx: i64 = a.x + scale_coord(t1n, t1d, dx);
    let cby: i64 = a.y + scale_coord(t1n, t1d, dy);
    let r = Some((PlanarPoint { x: cax, y: cay }, PlanarPoint { x: cbx, y: cby }));
    proof {
        lemma_clip_ends(a, b, half as int);
        if beyond_one_side(a, b, half as int) {
            lemma_beyond_none(a, b, half as int);
        }
        lemma_clip_some_meets_window(a, b, half as int);
        if inside_window(a, half as int) && inside_window(b, half as int) {
            vstd::arithmetic::div_mod::lemma_div_multiples_vanish(dx as int, 1);
            vstd::arithmetic::div_mod::lemma_div_multiples_vanish(dy as int, 1);
            vstd::arithmetic::div_mod::lemma_div_multiples_vanish(-dx as int, 1);
            vstd::arithmetic::div_mod::lemma_div_multiples_vanish(-dy as int, 1);
            assert(div_to_zero(0 * (dx as int), 1) == 0) by {
                vstd::arithmetic::div_mod::lemma_div_of0(1);
            }
            assert(div_to_zero(0 * (dy as int), 1) == 0) by {
                vstd::arithmetic::div_mod::lemma_div_of0(1);
            }
        }
    }
    r
}

/// A value between two others, in either order.
pub open spec fn between(v: int, p: int, q: int) -> bool {
    (p <= v <= q) || (q <= v <= p)
}

/// The share `tn / td` of a coordinate delta, rounded toward zero; with
/// the fraction in `[0, 1]` the result stays between zero and the delta.
fn scale_coord(tn: i64, td: i64, delta: i64) -> (r: i64)
    requires
        0 <= tn <= td,
        1 <= td <= 4000000000000,
        -2000000000000 <= delta <= 2000000000000,
    ensures
        r == div_to_zero(tn * delta, td as int),
        delta >= 0 ==> 0 <= r <= delta,
        delta < 0 ==> delta <= r <= 0,
{
    proof {
        assert(-8000000000000000000000000int <= (tn as int) * (delta as int)
            <= 8000000000000000000000000int) by (nonlinear_arith)
            requires 0 <= tn as int <= 4000000000000, -2000000000000 <= delta as int
                <= 2000000000000;
    }
    let prod: i128 = (tn as i128) * (delta as i128);
    let q: i128 = crate::numeric::div_to_zero_i128(prod, td as i128);
    proof {
        if delta >= 0 {
            assert((tn as int) * (delta as int) <= (td as int) * (delta as int))
                by (nonlinear_arith)
                requires 0 <= tn as int <= td as int, delta as int >= 0;
            vstd::arithmetic::div_mod::lemma_div_is_ordered(
                (tn as int) * (delta as int),
                (td as int) * (delta as int),
                td as int,
            );
            vstd::arithmetic::div_mod::lemma_div_multiples_vanish(delta as int, td as int);
        } else {
            let nd = -(delta as int);
            assert(-((tn as int) * (delta as int)) == (tn as int) * nd) by (nonlinear_arith)
                requires nd == -(delta as int);
            assert((tn as int) * nd <= (td as int) * nd) by (nonlinear_arith)
                requires 0 <= tn as int <= td as int, nd >= 0;
            vstd::arithmetic::div_mod::lemma_div_is_ordered(
                (tn as int) * nd,
                (td as int) * nd,
                td as int,
            );
            vstd::arithmetic::div_mod::lemma_div_multiples_vanish(nd, td as int);
        }
    }
    q as i64
}

/// Compare two fractions with positive denominators: strictly greater.
fn frac_gt(an: i64, ad: i64, bn: i64, bd: i64) -> (r: bool)
    requires
        -4000000000000 <= an <= 4000000000000,
        1 <= ad <= 4000000000000,
        -4000000000000 <= bn <= 4000000000000,
        1 <= bd <= 4000000000000,
    ensures
        r <==> an * bd > bn * ad,
{
    proof {
        assert(-16000000000000000000000000int <= (an as int) * (bd as int)
            <= 16000000000000000000000000int) by (nonlinear_arith)
            requires -4000000000000 <= an as int <= 4000000000000, 1 <= bd as int <= 4000000000000;
        assert(-16000000000000000000000000int <= (bn as int) * (ad as int)
            <= 16000000000000000000000000int) by (nonlinear_arith)
            requires -4000000000000 <= bn as int <= 4000000000000, 1 <= ad as int <= 4000000000000;
    }
    (an as i128) * (bd as i128) > (bn as i128) * (ad as i128)
}

/// Compare two fractions with positive denominators: strictly less.
fn frac_lt(an: i64, ad: i64, bn: i64, bd: i64) -> (r: bool)
    requires
        -4000000000000 <= an <= 4000000000000,
        1 <= ad <= 4000000000000,
        -4000000000000 <= bn <= 4000000000000,
        1 <= bd <= 4000000000000,
    ensures
        r <==> an * bd < bn * ad,
{
    proof {
        assert(-16000000000000000000000000int <= (an as int) * (bd as int)
            <= 16000000000000000000000000int) by (nonlinear_arith)
            requires -4000000000000 <= an as int <= 4000000000000, 1 <= bd as int <= 4000000000000;
        assert(-16000000000000000000000000int <= (bn as int) * (ad as int)
            <= 16000000000000000000000000int) by (nonlinear_arith)
            requires -4000000000000 <= bn as int <= 4000000000000, 1 <= ad as int <= 4000000000000;
    }
    (an as i128) * (bd as i128) < (bn as i128) * (ad as i128)
}

/// The clip fold after the first `c` of the four constraints.
pub open spec fn clip_fold(a: PlanarPoint, b: PlanarPoint, half: int, c: int) -> Option<
    (int, int, int, int),
> {
    let dx = b.x - a.x;
    let dy = b.y - a.y;
    let s0 = clip_update((0, 1, 1, 1), -dx, a.x + half);
    if c <= 0 {
        Some((0, 1, 1, 1))
    } else if c == 1 {
        s0
    } else if s0 is None {
        None
    } else {
        let s1 = clip_update(s0->0, dx, half - a.x);
        if c == 2 {
            s1
        } else if s1 is None {
            None
        } else {
            let s2 = clip_update(s1->0, -dy, a.y + half);
            if c == 3 {
                s2
            } else if s2 is None {
                None
            } else {
                clip_update(s2->0, dy, half - a.y)
            }
        }
    }
}

/// Unfolding one constraint of the clip fold.
proof fn lemma_clip_fold_step(a: PlanarPoint, b: PlanarPoint, half: int, c: int)
    requires
        0 <= c < 4,
    ensures
        clip_fold(a, b, half, c) matches Some(t) ==> clip_fold(a, b, half, c + 1) == clip_update(
            t,
            clip_check(a, b, half, c).0,
            clip_check(a, b, half, c).1,
        ),
        clip_fold(a, b, half, c) is None ==> clip_fold(a, b, half, c + 1) is None,
        clip_fold(a, b, half, c + 1) is None && c + 1 < 4 ==> clip_fold(a, b, half, 4) is None,
        clip_fold(a, b, half, 3) is None ==> clip_fold(a, b, half, 4) is None,
{
}

/// The constraint pair processed at step `c`.
pub open spec fn clip_check(a: PlanarPoint, b: PlanarPoint, half: int, c: int) -> (int, int) {
    let dx = b.x - a.x;
    let dy = b.y - a.y;
    if c == 0 {
        (-dx, a.x + half)
    } else if c == 1 {
        (dx, half - a.x)
    } else if c == 2 {
        (-dy, a.y + half)
    } else {
        (dy, half - a.y)
    }
}

/// The full fold gives the clip's outcome.
proof fn lemma_spec_clip_is_fold(a: PlanarPoint, b: PlanarPoint, half: int)
    ensures
        (clip_fold(a, b, half, 4) is None) <==> (spec_clip(a, b, half) is None),
        clip_fold(a, b, half, 4) matches Some(t) ==> spec_clip(a, b, half) == Some(
            (
                PlanarPoint {
                    x: (a.x + div_to_zero(t.0 * (b.x - a.x), t.1)) as i64,
                    y: (a.y + div_to_zero(t.0 * (b.y - a.y), t.1)) as i64,
                },
                PlanarPoint {
                    x: (a.x + div_to_zero(t.2 * (b.x - a.x), t.3)) as i64,
                    y: (a.y + div_to_zero(t.2 * (b.y - a.y), t.3)) as i64,
                },
            ),
        ),
{
}

/// A segment with both ends inside keeps the full parameter range.
proof fn lemma_clip_ends(a: PlanarPoint, b: PlanarPoint, half: int)
    ensures
        inside_window(a, half) && inside_window(b, half) ==> clip_fold(a, b, half, 4) == Some(
            (0int, 1int, 1int, 1int),
        ),
{
}

/// One clip step keeps the parameter window well formed: positive
/// denominators, a lower bound at or above zero, an upper bound at or
/// below one, and the lower bound at or below the upper.
pub open spec fn clip_state_wf(t: (int, int, int, int)) -> bool {
    &&& t.1 >= 1
    &&& t.3 >= 1
    &&& t.0 >= 0
    &&& 0 <= t.2 <= t.3
    &&& t.0 * t.3 <= t.2 * t.1
}

proof fn lemma_clip_update_wf(t: (int, int, int, int), p: int, q: int)
    requires
        clip_state_wf(t),
    ensures
        clip_update(t, p, q) matches Some(t2) ==> clip_state_wf(t2),
{
    if p != 0 {
        let rn = if p > 0 {
            q
        } else {
            -q
        };
        let rd = if p > 0 {
            p
        } else {
            -p
        };
        if p < 0 {
            if !(rn * t.3 > t.2 * rd) && rn * t.1 > t.0 * rd {
                assert(rn >= 0) by (nonlinear_arith)
                    requires rn * t.1 > t.0 * rd, t.0 >= 0, rd >= 1, t.1 >= 1;
                assert(rn * t.3 <= t.2 * rd) by (nonlinear_arith)
                    requires !(rn * t.3 > t.2 * rd);
            }
        } else {
            if !(rn * t.1 < t.0 * rd) && rn * t.3 < t.2 * rd {
                assert(rn <= rd) by (nonlinear_arith)
                    requires rn * t.3 < t.2 * rd, t.2 <= t.3, t.3 >= 1, rd >= 1;
                assert(rn >= 0) by (nonlinear_arith)
                    requires rn * t.1 >= t.0 * rd, t.0 >= 0, rd >= 1, t.1 >= 1;
            }
        }
    }
}

/// Every reachable clip state is well formed.
proof fn lemma_clip_state_wf_at(a: PlanarPoint, b: PlanarPoint, half: int, c: int)
    requires
        0 <= c <= 4,
    ensures
        clip_fold(a, b, half, c) matches Some(t) ==> clip_state_wf(t),
    decreases c,
{
    if c > 0 {
        lemma_clip_state_wf_at(a, b, half, c - 1);
        lemma_clip_fold_step(a, b, half, c - 1);
        if clip_fold(a, b, half, c - 1) is Some {
            let t = clip_fold(a, b, half, c - 1)->0;
            lemma_clip_update_wf(t, clip_check(a, b, half, c - 1).0, clip_check(a, b, half, c - 1).1);
        }
    }
}

/// A rational parameter `tn / td` on the segment whose point lies in the
/// window, all stated multiplied through by the positive denominator.
pub open spec fn meets_at(a: PlanarPoint, b: PlanarPoint, half: int, tn: int, td: int) -> bool {
    &&& td >= 1
    &&& 0 <= tn <= td
    &&& -half * td <= a.x * td + (b.x - a.x) * tn <= half * td
    &&& -half * td <= a.y * td + (b.y - a.y) * tn <= half * td
}

/// The segment has a point inside the window.
pub open spec fn seg_meets_window(a: PlanarPoint, b: PlanarPoint, half: int) -> bool {
    exists|tn: int, td: int| #[trigger] meets_at(a, b, half, tn, td)
}

/// One processed constraint `p * t <= q` holds of the clip state: at the
/// lower parameter bound for entering constraints, at the upper one for
/// leaving constraints.
pub open spec fn check_sat(
    a: PlanarPoint,
    b: PlanarPoint,
    half: int,
    k: int,
    t: (int, int, int, int),
) -> bool {
    let p = clip_check(a, b, half, k).0;
    let q = clip_check(a, b, half, k).1;
    &&& (p == 0 ==> q >= 0)
    &&& (p < 0 ==> p * t.0 <= q * t.1)
    &&& (p > 0 ==> p * t.2 <= q * t.3)
}

/// A clip step keeps every already-satisfied constraint satisfied: the
/// lower bound only rises and the upper bound only falls.
proof fn lemma_sat_preserved(
    t: (int, int, int, int),
    t2: (int, int, int, int),
    p: int,
    q: int,
    pk: int,
    qk: int,
)
    requires
        clip_state_wf(t),
        clip_update(t, p, q) == Some(t2),
        pk == 0 ==> qk >= 0,
        pk < 0 ==> pk * t.0 <= qk * t.1,
        pk > 0 ==> pk * t.2 <= qk * t.3,
    ensures
        pk == 0 ==> qk >= 0,
        pk < 0 ==> pk * t2.0 <= qk * t2.1,
        pk > 0 ==> pk * t2.2 <= qk * t2.3,
{
    if p != 0 {
        let rn = if p > 0 {
            q
        } else {
            -q
        };
        let rd = if p > 0 {
            p
        } else {
            -p
        };
        if p < 0 && !(rn * t.3 > t.2 * rd) && rn * t.1 > t.0 * rd {
            // The lower bound rose to rn / rd.
            if pk < 0 {
                assert(pk * rn <= qk * rd) by (nonlinear_arith)
                    requires
                        pk < 0,
                        pk * t.0 <= qk * t.1,
                        rn * t.1 >= t.0 * rd,
                        rd >= 1,
                        t.1 >= 1,
                ;
            }
        } else if p > 0 && !(rn * t.1 < t.0 * rd) && rn * t.3 < t.2 * rd {
            // The upper bound fell to rn / rd.
            if pk > 0 {
                assert(pk * rn <= qk * rd) by (nonlinear_arith)
                    requires
                        pk > 0,
                        pk * t.2 <= qk * t.3,
                        rn * t.3 <= t.2 * rd,
                        rd >= 1,
                        t.3 >= 1,
                ;
            }
        }
    }
}

/// A step that passes leaves its own constraint satisfied.
proof fn lemma_sat_new(t: (int, int, int, int), t2: (int, int, int, int), p: int, q: int)
    requires
        clip_state_wf(t),
        clip_update(t, p, q) == Some(t2),
    ensures
        p == 0 ==> q >= 0,
        p < 0 ==> p * t2.0 <= q * t2.1,
        p > 0 ==> p * t2.2 <= q * t2.3,
{
    if p != 0 {
        let rn = if p > 0 {
            q
        } else {
            -q
        };
        let rd = if p > 0 {
            p
        } else {
            -p
        };
        if p < 0 {
            if rn * t.1 > t.0 * rd {
                assert(p * rn <= q * rd) by (nonlinear_arith)
                    requires rn == -q, rd == -p;
            } else {
                assert(p * t.0 <= q * t.1) by (nonlinear_arith)
                    requires rn == -q, rd == -p, rn * t.1 <= t.0 * rd;
            }
        } else {
            if rn * t.3 < t.2 * rd {
                assert(p * rn <= q * rd) by (nonlinear_arith)
                    requires rn == q, rd == p;
            } else {
                assert(p * t.2 <= q * t.3) by (nonlinear_arith)
                    requires rn == q, rd == p, rn * t.3 >= t.2 * rd;
            }
        }
    }
}

/// Every constraint processed so far holds of the surviving clip state.
proof fn lemma_clip_sat_at(a: PlanarPoint, b: PlanarPoint, half: int, c: int)
    requires
        0 <= c <= 4,
    ensures
        clip_fold(a, b, half, c) matches Some(t) ==> forall|k: int|
            0 <= k < c ==> check_sat(a, b, half, k, t),
    decreases c,
{
    if c > 0 {
        lemma_clip_sat_at(a, b, half, c - 1);
        lemma_clip_state_wf_at(a, b, half, c - 1);
        lemma_clip_fold_step(a, b, half, c - 1);
        if clip_fold(a, b, half, c) is Some {
            assert(clip_fold(a, b, half, c - 1) is Some);
            let t = clip_fold(a, b, half, c - 1)->0;
            let t2 = clip_fold(a, b, half, c)->0;
            let p = clip_check(a, b, half, c - 1).0;
            let q = clip_check(a, b, half, c - 1).1;
            assert(clip_fold(a, b, half, c) == clip_update(t, p, q));
            assert forall|k: int| 0 <= k < c implies check_sat(a, b, half, k, t2) by {
                if k < c - 1 {
                    assert(check_sat(a, b, half, k, t));
                    lemma_sat_preserved(
                        t,
                        t2,
                        p,
                        q,
                        clip_check(a, b, half, k).0,
                        clip_check(a, b, half, k).1,
                    );
                } else {
                    lemma_sat_new(t, t2, p, q);
                }
            }
        }
    }
}

/// Both of one axis's satisfied constraints pin the point at the lower
/// parameter bound inside that axis's window band.
proof fn lemma_axis_bounds(av: int, dv: int, half: int, t: (int, int, int, int))
    requires
        clip_state_wf(t),
        -dv == 0 ==> av + half >= 0,
        -dv < 0 ==> (-dv) * t.0 <= (av + half) * t.1,
        -dv > 0 ==> (-dv) * t.2 <= (av + half) * t.3,
        dv == 0 ==> half - av >= 0,
        dv < 0 ==> dv * t.0 <= (half - av) * t.1,
        dv > 0 ==> dv * t.2 <= (half - av) * t.3,
    ensures
        -half * t.1 <= av * t.1 + dv * t.0 <= half * t.1,
{
    if dv == 0 {
        assert(-half * t.1 <= av * t.1 && av * t.1 <= half * t.1) by (nonlinear_arith)
            requires av + half >= 0, half - av >= 0, t.1 >= 1;
        assert(dv * t.0 == 0) by (nonlinear_arith)
            requires dv == 0;
    } else if dv > 0 {
        // Entering below, leaving above: transfer the upper bound from
        // the upper parameter down to the lower one.
        assert(-half * t.1 <= av * t.1 + dv * t.0) by (nonlinear_arith)
            requires (-dv) * t.0 <= (av + half) * t.1;
        assert(dv * t.0 <= (half - av) * t.1) by (nonlinear_arith)
            requires
                dv * t.2 <= (half - av) * t.3,
                t.0 * t.3 <= t.2 * t.1,
                dv > 0,
                t.1 >= 1,
                t.3 >= 1,
                t.0 >= 0,
        ;
        assert(av * t.1 + dv * t.0 <= half * t.1) by (nonlinear_arith)
            requires dv * t.0 <= (half - av) * t.1;
    } else {
        assert(av * t.1 + dv * t.0 <= half * t.1) by (nonlinear_arith)
            requires dv * t.0 <= (half - av) * t.1;
        assert((-dv) * t.0 <= (av + half) * t.1) by (nonlinear_arith)
            requires
                (-dv) * t.2 <= (av + half) * t.3,
                t.0 * t.3 <= t.2 * t.1,
                -dv > 0,
                t.1 >= 1,
                t.3 >= 1,
                t.0 >= 0,
        ;
        assert(-half * t.1 <= av * t.1 + dv * t.0) by (nonlinear_arith)
            requires (-dv) * t.0 <= (av + half) * t.1;
    }
}

/// A segment that survives the clip has a point inside the window: the
/// clipped start parameter is such a point. Contrapositive: a segment
/// whose intersection with the window is empty always clips to nothing.
pub proof fn lemma_clip_some_meets_window(a: PlanarPoint, b: PlanarPoint, half: int)
    requires
        spec_clip(a, b, half) is Some,
    ensures
        seg_meets_window(a, b, half),
{
    lemma_spec_clip_is_fold(a, b, half);
    lemma_clip_state_wf_at(a, b, half, 4);
    lemma_clip_sat_at(a, b, half, 4);
    let t = clip_fold(a, b, half, 4)->0;
    assert(check_sat(a, b, half, 0, t) && check_sat(a, b, half, 1, t) && check_sat(
        a,
        b,
        half,
        2,
        t,
    ) && check_sat(a, b, half, 3, t));
    lemma_axis_bounds(a.x as int, b.x - a.x, half, t);
    lemma_axis_bounds(a.y as int, b.y - a.y, half, t);
    assert(t.0 <= t.1) by (nonlinear_arith)
        requires
            t.0 * t.3 <= t.2 * t.1,
            0 <= t.2 <= t.3,
            t.1 >= 1,
            t.3 >= 1,
            t.0 >= 0,
    ;
    assert(meets_at(a, b, half, t.0, t.1));
}

/// A segment past one window side never survives that side's two
/// constraints.
proof fn lemma_beyond_none(a: PlanarPoint, b: PlanarPoint, half: int)
    requires
        half >= 1,
        beyond_one_side(a, b, half),
    ensures
        clip_fold(a, b, half, 4) is None,
{
    let dx = b.x - a.x;
    let dy = b.y - a.y;
    if a.x > half && b.x > half {
        // The +x side: its leaving constraint has a negative bound.
        if clip_fold(a, b, half, 1) is Some {
            let t = clip_fold(a, b, half, 1)->0;
            lemma_clip_state_wf_at(a, b, half, 1);
            if dx == 0 {
                assert(clip_fold(a, b, half, 2) is None);
            } else if dx > 0 {
                assert((half - a.x) * t.1 < t.0 * dx) by (nonlinear_arith)
                    requires half - a.x < 0, t.1 >= 1, t.0 >= 0, dx >= 1;
                assert(clip_fold(a, b, half, 2) is None);
            } else {
                assert((a.x - half) * t.3 > t.2 * (-dx)) by (nonlinear_arith)
                    requires a.x - half >= 1 + (-dx), -dx >= 1, 0 <= t.2 <= t.3, t.3 >= 1;
                assert(clip_fold(a, b, half, 2) is None);
            }
        }
    } else if a.x < -half && b.x < -half {
        // The -x side: its constraint is the very first processed.
        if dx == 0 {
            assert(clip_fold(a, b, half, 1) is None);
        } else if dx > 0 {
            assert((-(a.x + half)) * 1 > 1 * dx) by (nonlinear_arith)
                requires -(a.x + half) >= 1 + dx, dx >= 1;
            assert(clip_fold(a, b, half, 1) is None);
        } else {
            assert((a.x + half) * 1 < 0 * (-dx)) by (nonlinear_arith)
                requires a.x + half < 0;
            assert(clip_fold(a, b, half, 1) is None);
        }
    } else if a.y > half && b.y > half {
        if clip_fold(a, b, half, 2) is Some {
            let t = clip_fold(a, b, half, 2)->0;
            lemma_clip_state_wf_at(a, b, half, 2);
            if dy == 0 {
                assert(clip_fold(a, b, half, 3) == clip_fold(a, b, half, 2));
                assert(clip_fold(a, b, half, 4) is None);
            } else if dy > 0 {
                // The leaving +y constraint kills whatever state remains.
                lemma_clip_fold_step(a, b, half, 2);
                lemma_clip_update_wf(t, clip_check(a, b, half, 2).0, clip_check(a, b, half, 2).1);
                if clip_fold(a, b, half, 3) is Some {
                    let t3 = clip_fold(a, b, half, 3)->0;
                    assert((half - a.y) * t3.1 < t3.0 * dy) by (nonlinear_arith)
                        requires half - a.y < 0, t3.1 >= 1, t3.0 >= 0, dy >= 1;
                    assert(clip_fold(a, b, half, 4) is None);
                }
            } else {
                // y decreases but stays above the window: the entering +y
                // constraint lies past the whole parameter range.
                let rn2 = a.y + half;
                let rd2 = -dy;
                assert(rn2 * t.1 >= t.0 * rd2 && rn2 * t.3 >= t.2 * rd2) by (nonlinear_arith)
                    requires
                        rn2 >= 1 + rd2,
                        rd2 >= 1,
                        clip_state_wf(t),
                ;
                assert(clip_fold(a, b, half, 3) == clip_fold(a, b, half, 2));
                let rn3 = a.y - half;
                assert(rn3 * t.3 > t.2 * rd2) by (nonlinear_arith)
                    requires rn3 >= 1 + rd2, rd2 >= 1, 0 <= t.2 <= t.3, t.3 >= 1;
                assert(clip_fold(a, b, half, 4) is None);
            }
        }
    } else {
        if clip_fold(a, b, half, 2) is Some {
            let t = clip_fold(a, b, half, 2)->0;
            lemma_clip_state_wf_at(a, b, half, 2);
            if dy == 0 {
                assert(clip_fold(a, b, half, 3) is None);
            } else if dy > 0 {
                assert((-(a.y + half)) * t.3 > t.2 * dy) by (nonlinear_arith)
                    requires -(a.y + half) >= 1 + dy, dy >= 1, 0 <= t.2 <= t.3, t.3 >= 1;
                assert(clip_fold(a, b, half, 3) is None);
            } else {
                assert((a.y + half) * t.1 < t.0 * (-dy)) by (nonlinear_arith)
                    requires a.y + half < 0, t.1 >= 1, t.0 >= 0, -dy >= 1;
                assert(clip_fold(a, b, half, 3) is None);
            }
        }
    }
}

/// The projection of one geographic coordinate.
pub open spec fn proj_pt(ll: LatLon, lat0: int, lon0: int, cos_ppm: int) -> PlanarPoint {
    PlanarPoint {
        x: project_x(ll.lon_udeg - lon0, cos_ppm) as i64,
        y: project_y(ll.lat_udeg - lat0) as i64,
    }
}

/// Projecting and clipping one polyline, segment by segment: surviving
/// segment pieces extend the current run while they stay continuous; a
/// dropped segment, or a jump where the clip cut the previous piece
/// short, closes the run, and runs shorter than two points are dropped.
pub open spec fn crop_line_acc(
    pts: Seq<LatLon>,
    j: int,
    cur: Seq<PlanarPoint>,
    acc: Seq<(Seq<PlanarPoint>, (u8, u8, u8))>,
    color: (u8, u8, u8),
    lat0: int,
    lon0: int,
    cos_ppm: int,
    half: int,
) -> Seq<(Seq<PlanarPoint>, (u8, u8, u8))>
    decreases pts.len() - j,
{
    if j < 0 || j + 1 >= pts.len() {
        if cur.len() >= 2 {
            acc.push((cur, color))
        } else {
            acc
        }
    } else {
        let pa = proj_pt(pts[j], lat0, lon0, cos_ppm);
        let pb = proj_pt(pts[j + 1], lat0, lon0, cos_ppm);
        let clipped = spec_clip(pa, pb, half);
        if clipped is Some {
            let (ca, cb) = clipped->0;
            if cur.len() == 0 {
                crop_line_acc(pts, j + 1, seq![ca, cb], acc, color, lat0, lon0, cos_ppm, half)
            } else if cur.last() == ca {
                crop_line_acc(pts, j + 1, cur.push(cb), acc, color, lat0, lon0, cos_ppm, half)
            } else {
                crop_line_acc(
                    pts,
                    j + 1,
                    seq![ca, cb],
                    if cur.len() >= 2 {
                        acc.push((cur, color))
                    } else {
                        acc
                    },
                    color,
                    lat0,
                    lon0,
                    cos_ppm,
                    half,
                )
            }
        } else {
            crop_line_acc(
                pts,
                j + 1,
                Seq::empty(),
                if cur.len() >= 2 {
                    acc.push((cur, color))
                } else {
                    acc
                },
                color,
                lat0,
                lon0,
                cos_ppm,
                half,
            )
        }
    }
}

/// The whole projection and clip stage over a polyline list.
pub open spec fn crop_acc(
    lines: Seq<(Seq<LatLon>, (u8, u8, u8))>,
    i: int,
    acc: Seq<(Seq<PlanarPoint>, (u8, u8, u8))>,
    lat0: int,
    lon0: int,
    cos_ppm: int,
    half: int,
) -> Seq<(Seq<PlanarPoint>, (u8, u8, u8))>
    decreases lines.len() - i,
{
    if i < 0 || i >= lines.len() {
        acc
    } else {
        crop_acc(
            lines,
            i + 1,
            crop_line_acc(lines[i].0, 0, Seq::empty(), acc, lines[i].1, lat0, lon0, cos_ppm, half),
            lat0,
            lon0,
            cos_ppm,
            half,
        )
    }
}

/// A planar point within the projection's range.
pub open spec fn pp_in_range(p: PlanarPoint) -> bool {
    -250000000000 <= p.x <= 250000000000 && -250000000000 <= p.y <= 250000000000
}

/// Project every polyline around the given center and clip it against
/// the square window of the given side; continuity lost to clipping
/// splits a polyline, and output pieces keep at least two points.
#[verifier::loop_isolation(false)]
#[verifier::rlimit(80)]
pub fn project_and_crop(
    input: &Vec<Polyline<LatLon>>,
    lat0_udeg: i64,
    lon0_udeg: i64,
    cos_lat0_ppm: i64,
    side_mm: i64,
) -> (r: Vec<Polyline<PlanarPoint>>)
    requires
        -1000000000 <= lat0_udeg <= 1000000000,
        -1000000000 <= lon0_udeg <= 1000000000,
        0 <= cos_lat0_ppm <= 1000000,
        2 <= side_mm <= 1000000000000,
        forall|i: int|
            0 <= i < input@.len() ==> forall|j: int|
                0 <= j < (#[trigger] input@[i]).points@.len() ==> ll_in_range(
                    #[trigger] input@[i].points@[j],
                ),
    ensures
        r@.map_values(|l: Polyline<PlanarPoint>| pl_model(l)) == crop_acc(
            input@.map_values(|l: Polyline<LatLon>| ll_model(l)),
            0,
            Seq::empty(),
            lat0_udeg as int,
            lon0_udeg as int,
            cos_lat0_ppm as int,
            (side_mm / 2) as int,
        ),
        forall|i: int|
            0 <= i < r@.len() ==> (#[trigger] r@[i]).points@.len() >= 2 && forall|j: int|
                0 <= j < r@[i].points@.len() ==> pp_in_range(#[trigger] r@[i].points@[j]),
{
    let ghost lv = input@.map_values(|l: Polyline<LatLon>| ll_model(l));
    let half: i64 = side_mm / 2;
    let mut out: Vec<Polyline<PlanarPoint>> = Vec::new();
    let mut i: usize = 0;
    proof {
        assert(out@.map_values(|l: Polyline<PlanarPoint>| pl_model(l)) =~= Seq::<
            (Seq<PlanarPoint>, (u8, u8, u8)),
        >::empty());
    }
    while i < input.len()
        invariant
            0 <= i <= input@.len(),
            crop_acc(
                lv,
                0,
                Seq::empty(),
                lat0_udeg as int,
                lon0_udeg as int,
                cos_lat0_ppm as int,
                half as int,
            ) == crop_acc(
                lv,
                i as int,
                out@.map_values(|l: Polyline<PlanarPoint>| pl_model(l)),
                lat0_udeg as int,
                lon0_udeg as int,
                cos_lat0_ppm as int,
                half as int,
            ),
            forall|k: int|
                0 <= k < out@.len() ==> (#[trigger] out@[k]).points@.len() >= 2 && forall|j: int|
                    0 <= j < out@[k].points@.len() ==> pp_in_range(#[trigger] out@[k].points@[j]),
        decreases input@.len() - i,
    {
        proof {
            assert(lv[i as int] == ll_model(input@[i as int]));
        }
        let line = &input[i];
        let color = line.color;
        let mut cur: Vec<PlanarPoint> = Vec::new();
        let mut j: usize = 0;
        let n = line.points.len();
        let ghost entry_acc = out@.map_values(|l: Polyline<PlanarPoint>| pl_model(l));
        proof {
            assert(cur@ =~= Seq::<PlanarPoint>::empty());
        }
        while n > 0 && j < n - 1
            invariant
                0 <= j <= line.points@.len(),
                crop_line_acc(
                    line.points@,
                    0,
                    Seq::empty(),
                    entry_acc,
                    color,
                    lat0_udeg as int,
                    lon0_udeg as int,
                    cos_lat0_ppm as int,
                    half as int,
                ) == crop_line_acc(
                    line.points@,
                    j as int,
                    cur@,
                    out@.map_values(|l: Polyline<PlanarPoint>| pl_model(l)),
                    color,
                    lat0_udeg as int,
                    lon0_udeg as int,
                    cos_lat0_ppm as int,
                    half as int,
                ),
                forall|k: int| 0 <= k < cur@.len() ==> pp_in_range(#[trigger] cur@[k]),
                forall|k: int|
                    0 <= k < out@.len() ==> (#[trigger] out@[k]).points@.len() >= 2 && forall|
                        q: int,
                    |
                        0 <= q < out@[k].points@.len() ==> pp_in_range(
                            #[trigger] out@[k].points@[q],
                        ),
            decreases line.points@.len() - j,
        {
            let pa = project(line.points[j], lat0_udeg, lon0_udeg, cos_lat0_ppm);
            let pb = project(line.points[j + 1], lat0_udeg, lon0_udeg, cos_lat0_ppm);
            match clip_segment(pa, pb, half) {
                Some(cc) => {
                    let (ca, cb) = cc;
                    if cur.len() == 0 {
                        cur.push(ca);
                        cur.push(cb);
                        proof {
                            assert(cur@ =~= seq![ca, cb]);
                        }
                    } else if cur[cur.len() - 1].x == ca.x && cur[cur.len() - 1].y == ca.y {
                        proof {
                            assert(cur@.last() == ca);
                        }
                        cur.push(cb);
                    } else {
                        let ghost acc0 = out@.map_values(
                            |l: Polyline<PlanarPoint>| pl_model(l),
                        );
                        if cur.len() >= 2 {
                            out.push(Polyline { points: cur, color });
                            proof {
                                assert(out@.map_values(|l: Polyline<PlanarPoint>| pl_model(l))
                                    =~= acc0.push((cur@, color)));
                            }
                        }
                        cur = Vec::new();
                        cur.push(ca);
                        cur.push(cb);
                        proof {
                            assert(cur@ =~= seq![ca, cb]);
                        }
                    }
                },
                None => {
                    let ghost acc0 = out@.map_values(|l: Polyline<PlanarPoint>| pl_model(l));
                    if cur.len() >= 2 {
                        out.push(Polyline { points: cur, color });
                        proof {
                            assert(out@.map_values(|l: Polyline<PlanarPoint>| pl_model(l))
                                =~= acc0.push((cur@, color)));
                        }
                        cur = Vec::new();
                    } else {
                        cur = Vec::new();
                    }
                    proof {
                        assert(cur@ =~= Seq::<PlanarPoint>::empty());
                    }
                },
            }
            j = j + 1;
        }
        let ghost acc0 = out@.map_values(|l: Polyline<PlanarPoint>| pl_model(l));
        if cur.len() >= 2 {
            out.push(Polyline { points: cur, color });
            proof {
                assert(out@.map_values(|l: Polyline<PlanarPoint>| pl_model(l)) =~= acc0.push(
                    (cur@, color),
                ));
            }
        }
        i = i + 1;
    }
    out
}

/// The squared planar distance between two points.
pub open spec fn d2(p: PlanarPoint, q: PlanarPoint) -> int {
    (p.x - q.x) * (p.x - q.x) + (p.y - q.y) * (p.y - q.y)
}

/// Two polylines of one color whose endpoints coincide within the
/// squared tolerance, in any of the four endpoint pairings.
pub open spec fn joinable(
    a: (Seq<PlanarPoint>, (u8, u8, u8)),
    b: (Seq<PlanarPoint>, (u8, u8, u8)),
    tol2: int,
) -> bool {
    a.1 == b.1 && (d2(a.0.last(), b.0.first()) < tol2 || d2(a.0.last(), b.0.last()) < tol2 || d2(
        a.0.first(),
        b.0.last(),
    ) < tol2 || d2(a.0.first(), b.0.first()) < tol2)
}

/// No two distinct polylines of the set can be joined.
pub open spec fn fully_merged(s: Seq<(Seq<PlanarPoint>, (u8, u8, u8))>, tol2: int) -> bool {
    forall|i: int, j: int|
        0 <= i < s.len() && 0 <= j < s.len() && i != j ==> !joinable(s[i], s[j], tol2)
}

/// A merge-stage point within machine range.
pub open spec fn pp_bounded(p: PlanarPoint) -> bool {
    -1000000000000 <= p.x <= 1000000000000 && -1000000000000 <= p.y <= 1000000000000
}

/// A polyline ready for merging: two or more points, all in range.
pub open spec fn pl_ok(l: Polyline<PlanarPoint>) -> bool {
    l.points@.len() >= 2 && forall|j: int| 0 <= j < l.points@.len() ==> pp_bounded(
        #[trigger] l.points@[j],
    )
}

/// Whether two points lie within the squared tolerance.
fn d2_lt(p: PlanarPoint, q: PlanarPoint, tol2: i64) -> (r: bool)
    requires
        pp_bounded(p),
        pp_bounded(q),
    ensures
        r <==> d2(p, q) < tol2,
{
    let dx: i64 = p.x - q.x;
    let dy: i64 = p.y - q.y;
    proof {
        assert(0 <= (dx as int) * (dx as int) <= 4000000000000000000000000int
            && 0 <= (dy as int) * (dy as int) <= 4000000000000000000000000int)
            by (nonlinear_arith)
            requires -2000000000000 <= dx as int <= 2000000000000, -2000000000000 <= dy as int
                <= 2000000000000;
    }
    let s: i128 = (dx as i128) * (dx as i128) + (dy as i128) * (dy as i128);
    s < tol2 as i128
}

/// Which endpoint pairing, if any, lets `other` join `line`: 0 for
/// none, or the first matching arm in the fixed order tail-head,
/// tail-tail, head-tail, head-head.
pub open spec fn spec_join_arm(
    a: (Seq<PlanarPoint>, (u8, u8, u8)),
    b: (Seq<PlanarPoint>, (u8, u8, u8)),
    tol2: int,
) -> int {
    if a.1 != b.1 {
        0
    } else if d2(a.0.last(), b.0.first()) < tol2 {
        1
    } else if d2(a.0.last(), b.0.last()) < tol2 {
        2
    } else if d2(a.0.first(), b.0.last()) < tol2 {
        3
    } else if d2(a.0.first(), b.0.first()) < tol2 {
        4
    } else {
        0
    }
}

/// The splice of `b` onto `a` along an arm: whole polylines joined end
/// to end in the orientation the arm demands, with the duplicate
/// junction point dropped.
pub open spec fn spec_splice(
    a: (Seq<PlanarPoint>, (u8, u8, u8)),
    b: (Seq<PlanarPoint>, (u8, u8, u8)),
    arm: int,
) -> (Seq<PlanarPoint>, (u8, u8, u8)) {
    if arm == 1 {
        (a.0 + b.0.skip(1), a.1)
    } else if arm == 2 {
        (a.0 + b.0.take(b.0.len() - 1).reverse(), a.1)
    } else if arm == 3 {
        (b.0.take(b.0.len() - 1) + a.0, a.1)
    } else {
        (b.0.skip(1).reverse() + a.0, a.1)
    }
}

/// The first remaining polyline the working line can join, from `j` on,
/// or the length when none joins.
pub open spec fn spec_find_join(
    line: (Seq<PlanarPoint>, (u8, u8, u8)),
    work: Seq<(Seq<PlanarPoint>, (u8, u8, u8))>,
    j: int,
    tol2: int,
) -> int
    decreases work.len() - j,
{
    if j < 0 || j >= work.len() {
        work.len() as int
    } else if spec_join_arm(line, work[j], tol2) != 0 {
        j
    } else {
        spec_find_join(line, work, j + 1, tol2)
    }
}

/// Absorb remaining polylines into the working line, rescanning after
/// every join, until none joins; the result is the grown line and what
/// remains unabsorbed.
pub open spec fn spec_merge_line(
    line: (Seq<PlanarPoint>, (u8, u8, u8)),
    work: Seq<(Seq<PlanarPoint>, (u8, u8, u8))>,
    tol2: int,
) -> ((Seq<PlanarPoint>, (u8, u8, u8)), Seq<(Seq<PlanarPoint>, (u8, u8, u8))>)
    decreases work.len(),
{
    let j = spec_find_join(line, work, 0, tol2);
    if 0 <= j < work.len() {
        spec_merge_line(
            spec_splice(line, work[j], spec_join_arm(line, work[j], tol2)),
            work.remove(j),
            tol2,
        )
    } else {
        (line, work)
    }
}

/// Absorbing never grows the remaining set.
pub proof fn lemma_spec_merge_line_len(
    line: (Seq<PlanarPoint>, (u8, u8, u8)),
    work: Seq<(Seq<PlanarPoint>, (u8, u8, u8))>,
    tol2: int,
)
    ensures
        spec_merge_line(line, work, tol2).1.len() <= work.len(),
    decreases work.len(),
{
    let j = spec_find_join(line, work, 0, tol2);
    if 0 <= j < work.len() {
        lemma_spec_merge_line_len(
            spec_splice(line, work[j], spec_join_arm(line, work[j], tol2)),
            work.remove(j),
            tol2,
        );
    }
}

/// Repeated merging: take the last polyline of the working set, absorb
/// everything of its color whose endpoints coincide (directly or through
/// earlier joins), and move the grown line to the output.
pub open spec fn spec_merge_acc(
    work: Seq<(Seq<PlanarPoint>, (u8, u8, u8))>,
    merged: Seq<(Seq<PlanarPoint>, (u8, u8, u8))>,
    tol2: int,
) -> Seq<(Seq<PlanarPoint>, (u8, u8, u8))>
    decreases work.len(),
    via spec_merge_acc_decreases
{
    if work.len() == 0 {
        merged
    } else {
        let st = spec_merge_line(work.last(), work.drop_last(), tol2);
        spec_merge_acc(st.1, merged.push(st.0), tol2)
    }
}

#[via_fn]
proof fn spec_merge_acc_decreases(
    work: Seq<(Seq<PlanarPoint>, (u8, u8, u8))>,
    merged: Seq<(Seq<PlanarPoint>, (u8, u8, u8))>,
    tol2: int,
) {
    if work.len() > 0 {
        lemma_spec_merge_line_len(work.last(), work.drop_last(), tol2);
    }
}

/// The fully merged form of a polyline list.
pub open spec fn spec_merge(
    lines: Seq<(Seq<PlanarPoint>, (u8, u8, u8))>,
    tol2: int,
) -> Seq<(Seq<PlanarPoint>, (u8, u8, u8))> {
    spec_merge_acc(lines, Seq::empty(), tol2)
}

/// Which endpoint pairing, if any, lets `other` join `line`: 0 for none,
/// or the first matching arm in the fixed order tail-head, tail-tail,
/// head-tail, head-head.
fn join_arm(line: &Polyline<PlanarPoint>, other: &Polyline<PlanarPoint>, tol2: i64) -> (r: u8)
    requires
        pl_ok(*line),
        pl_ok(*other),
    ensures
        r <= 4,
        r as int == spec_join_arm(pl_model(*line), pl_model(*other), tol2 as int),
        r == 0 <==> !joinable(pl_model(*line), pl_model(*other), tol2 as int),
        r != 0 ==> line.color == other.color,
{
    if !crate::point::rgb_eq(line.color, other.color) {
        return 0;
    }
    let a0 = line.points[0];
    let a1 = line.points[line.points.len() - 1];
    let b0 = other.points[0];
    let b1 = other.points[other.points.len() - 1];
    if d2_lt(a1, b0, tol2) {
        1
    } else if d2_lt(a1, b1, tol2) {
        2
    } else if d2_lt(a0, b1, tol2) {
        3
    } else if d2_lt(a0, b0, tol2) {
        4
    } else {
        0
    }
}

/// One of the four original endpoints.
pub open spec fn endpoint_of(
    p: PlanarPoint,
    a: (Seq<PlanarPoint>, (u8, u8, u8)),
    b: (Seq<PlanarPoint>, (u8, u8, u8)),
) -> bool {
    p == a.0.first() || p == a.0.last() || p == b.0.first() || p == b.0.last()
}

/// Splice `other` onto `line` along the given arm, keeping the combined
/// run's orientation continuous.
fn splice(line: Polyline<PlanarPoint>, other: Polyline<PlanarPoint>, arm: u8) -> (r: Polyline<
    PlanarPoint,
>)
    requires
        1 <= arm <= 4,
        pl_ok(line),
        pl_ok(other),
        line.color == other.color,
    ensures
        pl_model(r) == spec_splice(pl_model(line), pl_model(other), arm as int),
        pl_ok(r),
        r.color == line.color,
        r.points@.len() == line.points@.len() + other.points@.len() - 1,
        endpoint_of(r.points@.first(), pl_model(line), pl_model(other)),
        endpoint_of(r.points@.last(), pl_model(line), pl_model(other)),
{
    let la = line.points.len();
    let lb = other.points.len();
    if arm == 1 {
        // tail-head: append the other line after its first point.
        let mut pts = line.points;
        let mut k: usize = 1;
        while k < lb
            invariant
                1 <= k <= lb,
                lb == other.points@.len(),
                pts@ =~= line.points@ + other.points@.subrange(1, k as int),
                pl_ok(line),
                pl_ok(other),
            decreases lb - k,
        {
            pts.push(other.points[k]);
            k = k + 1;
        }
        proof {
            assert(pts@.last() == other.points@.last());
            assert(pts@.first() == line.points@.first());
            assert(pts@ =~= line.points@ + other.points@.skip(1));
        }
        Polyline { points: pts, color: line.color }
    } else if arm == 2 {
        // tail-tail: append the other line reversed, after its last point.
        let mut pts = line.points;
        let mut k: usize = lb - 1;
        while k > 0
            invariant
                0 <= k <= lb - 1,
                lb == other.points@.len(),
                pts@.len() == line.points@.len() + (lb - 1 - k),
                forall|q: int|
                    0 <= q < line.points@.len() ==> #[trigger] pts@[q] == line.points@[q],
                forall|q: int|
                    line.points@.len() <= q < pts@.len() ==> #[trigger] pts@[q] == other.points@[lb
                        - 2 - (q - line.points@.len())],
                pl_ok(line),
                pl_ok(other),
            decreases k,
        {
            pts.push(other.points[k - 1]);
            k = k - 1;
        }
        proof {
            assert(pts@.last() == other.points@.first());
            assert(pts@.first() == line.points@.first());
            assert(forall|q: int|
                0 <= q < pts@.len() ==> pp_bounded(#[trigger] pts@[q]));
            assert(pts@ =~= line.points@ + other.points@.take(lb - 1).reverse()) by {
                assert(forall|q: int|
                    line.points@.len() <= q < pts@.len()
                        ==> other.points@.take(lb - 1).reverse()[q - line.points@.len()]
                        == #[trigger] pts@[q]);
            }
        }
        Polyline { points: pts, color: line.color }
    } else if arm == 3 {
        // head-tail: the other line, then this one after its first point.
        let mut pts: Vec<PlanarPoint> = Vec::new();
        let mut k: usize = 0;
        while k < lb - 1
            invariant
                0 <= k <= lb - 1,
                lb == other.points@.len(),
                pts@ =~= other.points@.subrange(0, k as int),
                pl_ok(other),
            decreases lb - 1 - k,
        {
            pts.push(other.points[k]);
            k = k + 1;
        }
        let mut k2: usize = 0;
        while k2 < la
            invariant
                0 <= k2 <= la,
                la == line.points@.len(),
                lb == other.points@.len(),
                pts@ =~= other.points@.subrange(0, lb - 1) + line.points@.subrange(0, k2 as int),
                pl_ok(line),
                pl_ok(other),
            decreases la - k2,
        {
            pts.push(line.points[k2]);
            k2 = k2 + 1;
        }
        proof {
            assert(pts@.first() == other.points@.first());
            assert(pts@.last() == line.points@.last());
            assert(forall|q: int|
                0 <= q < pts@.len() ==> pp_bounded(#[trigger] pts@[q]));
            assert(pts@ =~= other.points@.take(lb - 1) + line.points@);
        }
        Polyline { points: pts, color: line.color }
    } else {
        // head-head: the other line reversed (after its first point), then
        // this one.
        let mut pts: Vec<PlanarPoint> = Vec::new();
        let mut k: usize = lb;
        while k > 1
            invariant
                1 <= k <= lb,
                lb == other.points@.len(),
                pts@.len() == lb - k,
                forall|q: int|
                    0 <= q < pts@.len() ==> #[trigger] pts@[q] == other.points@[lb - 1 - q],
                pl_ok(other),
            decreases k,
        {
            pts.push(other.points[k - 1]);
            k = k - 1;
        }
        let ghost rev_part = pts@;
        let mut k2: usize = 0;
        while k2 < la
            invariant
                0 <= k2 <= la,
                la == line.points@.len(),
                lb == other.points@.len(),
                pts@ =~= rev_part + line.points@.subrange(0, k2 as int),
                rev_part.len() == lb - 1,
                forall|q: int|
                    0 <= q < rev_part.len() ==> #[trigger] rev_part[q] == other.points@[lb - 1
                        - q],
                pl_ok(line),
                pl_ok(other),
            decreases la - k2,
        {
            pts.push(line.points[k2]);
            k2 = k2 + 1;
        }
        proof {
            assert(pts@.first() == other.points@.last());
            assert(pts@.last() == line.points@.last());
            assert(forall|q: int|
                0 <= q < pts@.len() ==> pp_bounded(#[trigger] pts@[q]));
            assert(pts@ =~= other.points@.skip(1).reverse() + line.points@) by {
                assert(forall|q: int|
                    0 <= q < rev_part.len() ==> other.points@.skip(1).reverse()[q]
                        == #[trigger] rev_part[q]);
            }
        }
        Polyline { points: pts, color: line.color }
    }
}

/// Joining cannot create a connection to a line that neither piece
/// connected to: the spliced line's endpoints are endpoints the pieces
/// already had.
proof fn lemma_join_preserved(
    m: (Seq<PlanarPoint>, (u8, u8, u8)),
    a: (Seq<PlanarPoint>, (u8, u8, u8)),
    b: (Seq<PlanarPoint>, (u8, u8, u8)),
    nw: (Seq<PlanarPoint>, (u8, u8, u8)),
    tol2: int,
)
    requires
        !joinable(m, a, tol2),
        !joinable(m, b, tol2),
        nw.1 == a.1,
        a.1 == b.1,
        endpoint_of(nw.0.first(), a, b),
        endpoint_of(nw.0.last(), a, b),
    ensures
        !joinable(m, nw, tol2),
{
}

/// Merge polylines that share a color and have coinciding endpoints,
/// until no further merge is possible.
///
/// On a set that is already fully merged this only reverses the order of
/// the polylines, changing nothing else, so merging is idempotent on the
/// polyline set.
#[verifier::rlimit(80)]
pub fn merge_connected_lines(lines: Vec<Polyline<PlanarPoint>>, tol_mm: i64) -> (r: Vec<Polyline<
    PlanarPoint,
>>)
    requires
        0 <= tol_mm <= 1000000,
        forall|i: int| 0 <= i < lines@.len() ==> pl_ok(#[trigger] lines@[i]),
    ensures
        ({
            let inms = lines@.map_values(|l: Polyline<PlanarPoint>| pl_model(l));
            let rms = r@.map_values(|l: Polyline<PlanarPoint>| pl_model(l));
            let tol2 = (tol_mm * tol_mm) as int;
            &&& rms == spec_merge(inms, tol2)
            &&& fully_merged(rms, tol2)
            &&& (fully_merged(inms, tol2) ==> rms == inms.reverse())
            &&& r@.len() <= lines@.len()
            &&& forall|i: int| 0 <= i < r@.len() ==> pl_ok(#[trigger] r@[i])
        }),
{
    let ghost inms = lines@.map_values(|l: Polyline<PlanarPoint>| pl_model(l));
    proof {
        assert(tol_mm * tol_mm <= 1000000000000int && tol_mm * tol_mm >= 0) by (nonlinear_arith)
            requires 0 <= tol_mm <= 1000000i64;
    }
    let tol2: i64 = tol_mm * tol_mm;
    let ghost fm = fully_merged(inms, tol2 as int);
    let mut work = lines;
    let mut merged: Vec<Polyline<PlanarPoint>> = Vec::new();
    proof {
        assert(work@.map_values(|l: Polyline<PlanarPoint>| pl_model(l)) =~= inms.take(
            work@.len() as int,
        ));
        assert(merged@.map_values(|l: Polyline<PlanarPoint>| pl_model(l)) =~= inms.skip(
            work@.len() as int,
        ).reverse());
        assert(work@.map_values(|l: Polyline<PlanarPoint>| pl_model(l)) =~= inms);
        assert(merged@.map_values(|l: Polyline<PlanarPoint>| pl_model(l)) =~= Seq::<
            (Seq<PlanarPoint>, (u8, u8, u8)),
        >::empty());
    }
    while work.len() > 0
        invariant
            merged@.len() + work@.len() <= inms.len(),
            inms == lines@.map_values(|l: Polyline<PlanarPoint>| pl_model(l)),
            fm == fully_merged(inms, tol2 as int),
            tol2 == tol_mm * tol_mm,
            forall|k: int| 0 <= k < work@.len() ==> pl_ok(#[trigger] work@[k]),
            forall|k: int| 0 <= k < merged@.len() ==> pl_ok(#[trigger] merged@[k]),
            forall|i: int, j: int|
                0 <= i < j < merged@.len() ==> !joinable(
                    pl_model(#[trigger] merged@[i]),
                    pl_model(#[trigger] merged@[j]),
                    tol2 as int,
                ),
            forall|i: int, j: int|
                0 <= i < merged@.len() && 0 <= j < work@.len() ==> !joinable(
                    pl_model(#[trigger] merged@[i]),
                    pl_model(#[trigger] work@[j]),
                    tol2 as int,
                ),
            fm ==> work@.map_values(|l: Polyline<PlanarPoint>| pl_model(l)) == inms.take(
                work@.len() as int,
            ) && merged@.map_values(|l: Polyline<PlanarPoint>| pl_model(l)) == inms.skip(
                work@.len() as int,
            ).reverse(),
            spec_merge(inms, tol2 as int) == spec_merge_acc(
                work@.map_values(|l: Polyline<PlanarPoint>| pl_model(l)),
                merged@.map_values(|l: Polyline<PlanarPoint>| pl_model(l)),
                tol2 as int,
            ),
        decreases work@.len(),
    {
        let ghost work_pre = work@;
        let ghost wm_pre = work@.map_values(|l: Polyline<PlanarPoint>| pl_model(l));
        let ghost mm_pre = merged@.map_values(|l: Polyline<PlanarPoint>| pl_model(l));
        let mut line = match work.pop() {
            Some(l) => l,
            None => {
                proof {
                    assert(false);
                }
                unreached()
            },
        };
        let ghost line0 = pl_model(line);
        let ghost wm_in = work@.map_values(|l: Polyline<PlanarPoint>| pl_model(l));
        proof {
            assert(work_pre[work_pre.len() - 1] == line);
            assert(wm_in =~= wm_pre.drop_last());
            assert(wm_pre[wm_pre.len() - 1] == pl_model(work_pre[work_pre.len() - 1]));
            assert(line0 == wm_pre.last());
            assert(forall|i: int|
                0 <= i < merged@.len() ==> !joinable(
                    pl_model(#[trigger] merged@[i]),
                    pl_model(line),
                    tol2 as int,
                ));
            if fm {
                assert(work@.map_values(|l: Polyline<PlanarPoint>| pl_model(l)) =~= inms.take(
                    work@.len() as int,
                ));
                assert(work_pre.map_values(|l: Polyline<PlanarPoint>| pl_model(l))[
                    work_pre.len() - 1] == pl_model(line));
                assert(pl_model(line) == inms[work@.len() as int]);
            }
        }
        let mut progress = true;
        while progress
            invariant
                pl_ok(line),
                work@.len() < work_pre.len(),
                inms == lines@.map_values(|l: Polyline<PlanarPoint>| pl_model(l)),
                fm == fully_merged(inms, tol2 as int),
                tol2 == tol_mm * tol_mm,
                merged@.len() + work@.len() + 1 <= inms.len(),
                forall|k: int| 0 <= k < work@.len() ==> pl_ok(#[trigger] work@[k]),
                forall|k: int| 0 <= k < merged@.len() ==> pl_ok(#[trigger] merged@[k]),
                forall|i: int, j: int|
                    0 <= i < j < merged@.len() ==> !joinable(
                        pl_model(#[trigger] merged@[i]),
                        pl_model(#[trigger] merged@[j]),
                        tol2 as int,
                    ),
                forall|i: int, j: int|
                    0 <= i < merged@.len() && 0 <= j < work@.len() ==> !joinable(
                        pl_model(#[trigger] merged@[i]),
                        pl_model(#[trigger] work@[j]),
                        tol2 as int,
                    ),
                forall|i: int|
                    0 <= i < merged@.len() ==> !joinable(
                        pl_model(#[trigger] merged@[i]),
                        pl_model(line),
                        tol2 as int,
                    ),
                !progress ==> forall|j: int|
                    0 <= j < work@.len() ==> !joinable(
                        pl_model(line),
                        pl_model(#[trigger] work@[j]),
                        tol2 as int,
                    ),
                fm ==> work@.map_values(|l: Polyline<PlanarPoint>| pl_model(l)) == inms.take(
                    work@.len() as int,
                ) && merged@.map_values(|l: Polyline<PlanarPoint>| pl_model(l)) == inms.skip(
                    work@.len() as int + 1,
                ).reverse() && pl_model(line) == inms[work@.len() as int],
                spec_merge_line(line0, wm_in, tol2 as int) == spec_merge_line(
                    pl_model(line),
                    work@.map_values(|l: Polyline<PlanarPoint>| pl_model(l)),
                    tol2 as int,
                ),
                !progress ==> spec_find_join(
                    pl_model(line),
                    work@.map_values(|l: Polyline<PlanarPoint>| pl_model(l)),
                    0,
                    tol2 as int,
                ) == work@.len(),
            decreases work@.len() + (if progress {
                1int
            } else {
                0int
            }),
        {
            progress = false;
            let ghost wms = work@.map_values(|l: Polyline<PlanarPoint>| pl_model(l));
            let ghost lm = pl_model(line);
            let mut idx: usize = 0;
            let mut found: usize = 0;
            let mut arm: u8 = 0;
            while idx < work.len()
                invariant
                    0 <= idx <= work@.len(),
                    pl_ok(line),
                    tol2 == tol_mm * tol_mm,
                    wms == work@.map_values(|l: Polyline<PlanarPoint>| pl_model(l)),
                    lm == pl_model(line),
                    forall|k: int| 0 <= k < work@.len() ==> pl_ok(#[trigger] work@[k]),
                    arm == 0 ==> forall|k: int|
                        0 <= k < idx ==> !joinable(
                            pl_model(line),
                            pl_model(#[trigger] work@[k]),
                            tol2 as int,
                        ),
                    arm == 0 ==> spec_find_join(lm, wms, 0, tol2 as int) == spec_find_join(
                        lm,
                        wms,
                        idx as int,
                        tol2 as int,
                    ),
                    arm != 0 ==> arm <= 4 && found < work@.len() && joinable(
                        pl_model(line),
                        pl_model(work@[found as int]),
                        tol2 as int,
                    ) && line.color == work@[found as int].color && found as int
                        == spec_find_join(lm, wms, 0, tol2 as int) && arm as int == spec_join_arm(
                        lm,
                        wms[found as int],
                        tol2 as int,
                    ),
                decreases work@.len() - idx,
            {
                if arm == 0 {
                    proof {
                        assert(wms[idx as int] == pl_model(work@[idx as int]));
                    }
                    let a = join_arm(&line, &work[idx], tol2);
                    if a != 0 {
                        arm = a;
                        found = idx;
                    }
                }
                idx = idx + 1;
            }
            if arm != 0 {
                proof {
                    if fm {
                        // A fully merged input never reaches a join.
                        assert(work@.map_values(|l: Polyline<PlanarPoint>| pl_model(l))[
                            found as int] == pl_model(work@[found as int]));
                        assert(false);
                    }
                }
                let ghost work_mid = work@;
                let other = work.remove(found);
                proof {
                    assert(forall|j: int|
                        0 <= j < work@.len() ==> #[trigger] work@[j] == if j < found {
                            work_mid[j]
                        } else {
                            work_mid[j + 1]
                        });
                    assert(work@.map_values(|l: Polyline<PlanarPoint>| pl_model(l)) =~= wms.remove(
                        found as int,
                    ));
                    assert(pl_model(other) == wms[found as int]);
                }
                let ghost old_line = line;
                let nw = splice(line, other, arm);
                proof {
                    assert forall|i: int| 0 <= i < merged@.len() implies !joinable(
                        pl_model(#[trigger] merged@[i]),
                        pl_model(nw),
                        tol2 as int,
                    ) by {
                        lemma_join_preserved(
                            pl_model(merged@[i]),
                            pl_model(old_line),
                            pl_model(other),
                            pl_model(nw),
                            tol2 as int,
                        );
                    }
                    // One spec absorption step matches this join exactly.
                    assert(spec_merge_line(lm, wms, tol2 as int) == spec_merge_line(
                        pl_model(nw),
                        wms.remove(found as int),
                        tol2 as int,
                    ));
                }
                line = nw;
                progress = true;
            } else {
                proof {
                    assert(spec_find_join(lm, wms, work@.len() as int, tol2 as int)
                        == work@.len());
                }
            }
        }
        proof {
            // The working line absorbed everything that joins it.
            assert(spec_merge_line(
                pl_model(line),
                work@.map_values(|l: Polyline<PlanarPoint>| pl_model(l)),
                tol2 as int,
            ) == (
                pl_model(line),
                work@.map_values(|l: Polyline<PlanarPoint>| pl_model(l)),
            ));
            assert(spec_merge_line(line0, wm_in, tol2 as int) == (
                pl_model(line),
                work@.map_values(|l: Polyline<PlanarPoint>| pl_model(l)),
            ));
        }
        let ghost merged_pre = merged@;
        merged.push(line);
        proof {
            assert(forall|i: int|
                0 <= i < merged_pre.len() ==> #[trigger] merged@[i] == merged_pre[i]);
            assert(merged@[merged@.len() - 1] == line);
            assert(merged@.map_values(|q: Polyline<PlanarPoint>| pl_model(q)) =~= mm_pre.push(
                pl_model(line),
            ));
            assert(spec_merge_acc(wm_pre, mm_pre, tol2 as int) == spec_merge_acc(
                work@.map_values(|l: Polyline<PlanarPoint>| pl_model(l)),
                mm_pre.push(pl_model(line)),
                tol2 as int,
            ));
            if fm {
                let l = work@.len() as int;
                assert(merged@.map_values(|q: Polyline<PlanarPoint>| pl_model(q))
                    =~= merged_pre.map_values(|q: Polyline<PlanarPoint>| pl_model(q)).push(
                    pl_model(line),
                ));
                assert forall|i: int| 0 <= i < inms.len() - l implies #[trigger] inms.skip(
                    l,
                ).reverse()[i] == inms[inms.len() - 1 - i] by {
                    assert(inms.skip(l).reverse()[i] == inms.skip(l)[inms.len() - l - 1 - i]);
                }
                assert(merged@.map_values(|q: Polyline<PlanarPoint>| pl_model(q)) =~= inms.skip(
                    l,
                ).reverse()) by {
                    assert forall|i: int| 0 <= i < inms.len() - l - 1 implies #[trigger] inms.skip(
                        l + 1,
                    ).reverse()[i] == inms[inms.len() - 1 - i] by {
                        assert(inms.skip(l + 1).reverse()[i] == inms.skip(l + 1)[inms.len() - l - 2
                            - i]);
                    }
                }
            }
        }
    }
    proof {
        if fm {
            assert(inms.skip(0) =~= inms);
            assert(merged@.map_values(|l: Polyline<PlanarPoint>| pl_model(l)) == inms.reverse());
        }
        assert(spec_merge_acc(
            work@.map_values(|l: Polyline<PlanarPoint>| pl_model(l)),
            merged@.map_values(|l: Polyline<PlanarPoint>| pl_model(l)),
            tol2 as int,
        ) == merged@.map_values(|l: Polyline<PlanarPoint>| pl_model(l)));
        let rms = merged@.map_values(|l: Polyline<PlanarPoint>| pl_model(l));
        assert forall|i: int, j: int|
            0 <= i < rms.len() && 0 <= j < rms.len() && i != j implies !joinable(
            rms[i],
            rms[j],
            tol2 as int,
        ) by {
            if i < j {
                assert(!joinable(pl_model(merged@[i]), pl_model(merged@[j]), tol2 as int));
            } else {
                assert(!joinable(pl_model(merged@[j]), pl_model(merged@[i]), tol2 as int));
                lemma_joinable_sym(pl_model(merged@[j]), pl_model(merged@[i]), tol2 as int);
            }
        }
    }
    merged
}

/// Joinability reads the same four endpoint distances from either side.
proof fn lemma_joinable_sym(
    a: (Seq<PlanarPoint>, (u8, u8, u8)),
    b: (Seq<PlanarPoint>, (u8, u8, u8)),
    tol2: int,
)
    ensures
        joinable(a, b, tol2) == joinable(b, a, tol2),
{
    lemma_d2_sym(a.0.last(), b.0.first());
    lemma_d2_sym(a.0.last(), b.0.last());
    lemma_d2_sym(a.0.first(), b.0.last());
    lemma_d2_sym(a.0.first(), b.0.first());
}

/// The squared distance is symmetric.
proof fn lemma_d2_sym(p: PlanarPoint, q: PlanarPoint)
    ensures
        d2(p, q) == d2(q, p),
{
    assert((p.x - q.x) * (p.x - q.x) == (q.x - p.x) * (q.x - p.x)) by (nonlinear_arith);
    assert((p.y - q.y) * (p.y - q.y) == (q.y - p.y) * (q.y - p.y)) by (nonlinear_arith);
}

/// What identifies a polyline regardless of its direction: the set of
/// its two readings, with its color.
pub open spec fn line_key(m: (Seq<PlanarPoint>, (u8, u8, u8))) -> (
    Set<Seq<PlanarPoint>>,
    (u8, u8, u8),
) {
    (Set::empty().insert(m.0).insert(m.0.reverse()), m.1)
}

/// The direction-less multiset of a polyline list.
pub open spec fn key_multiset(s: Seq<(Seq<PlanarPoint>, (u8, u8, u8))>) -> Multiset<
    (Set<Seq<PlanarPoint>>, (u8, u8, u8)),
> {
    s.map_values(|m: (Seq<PlanarPoint>, (u8, u8, u8))| line_key(m)).to_multiset()
}

/// Reversing a polyline keeps its key.
proof fn lemma_key_reverse(m: (Seq<PlanarPoint>, (u8, u8, u8)))
    ensures
        line_key((m.0.reverse(), m.1)) == line_key(m),
{
    assert(m.0.reverse().reverse() =~= m.0);
    assert(Set::empty().insert(m.0.reverse()).insert(m.0.reverse().reverse())
        =~= Set::empty().insert(m.0).insert(m.0.reverse()));
}

/// The squared planar distance, for choosing the next polyline.
fn d2_val(p: PlanarPoint, q: PlanarPoint) -> (r: i128)
    requires
        pp_bounded(p),
        pp_bounded(q),
    ensures
        r == d2(p, q),
        0 <= r <= 8000000000000000000000000,
{
    let dx: i64 = p.x - q.x;
    let dy: i64 = p.y - q.y;
    proof {
        assert(0 <= (dx as int) * (dx as int) <= 4000000000000000000000000int
            && 0 <= (dy as int) * (dy as int) <= 4000000000000000000000000int)
            by (nonlinear_arith)
            requires -2000000000000 <= dx as int <= 2000000000000, -2000000000000 <= dy as int
                <= 2000000000000;
    }
    (dx as i128) * (dx as i128) + (dy as i128) * (dy as i128)
}

/// A polyline's points, reversed.
fn reversed_points(points: &Vec<PlanarPoint>) -> (r: Vec<PlanarPoint>)
    ensures
        r@ == points@.reverse(),
{
    let mut out: Vec<PlanarPoint> = Vec::new();
    let mut k: usize = points.len();
    while k > 0
        invariant
            0 <= k <= points@.len(),
            out@.len() == points@.len() - k,
            forall|q: int| 0 <= q < out@.len() ==> #[trigger] out@[q] == points@[points@.len() - 1
                - q],
        decreases k,
    {
        out.push(points[k - 1]);
        k = k - 1;
    }
    proof {
        assert(out@ =~= points@.reverse());
    }
    out
}

/// The distance budget the nearest-endpoint scan starts from: farther
/// than any squared distance the fields can produce.
pub open spec fn greedy_far() -> int {
    170141183460469231731687303715884105727
}

/// The nearest-endpoint scan, walked candidate by candidate exactly as
/// the ordering performs it: for each remaining polyline, its head and
/// then its tail compete against the best so far, a strictly smaller
/// squared distance winning; the result is the best index, whether the
/// tail won (so the polyline is to be reversed), and the best distance.
pub open spec fn greedy_best_from(
    last: PlanarPoint,
    work: Seq<(Seq<PlanarPoint>, (u8, u8, u8))>,
    j: int,
    bi: int,
    brev: bool,
    bd: int,
) -> (int, bool, int)
    decreases work.len() - j,
{
    if j < 0 || j >= work.len() {
        (bi, brev, bd)
    } else {
        let d0 = d2(last, work[j].0.first());
        let d1 = d2(last, work[j].0.last());
        let s1 = if d0 < bd {
            (j, false, d0)
        } else {
            (bi, brev, bd)
        };
        let s2 = if d1 < s1.2 {
            (j, true, d1)
        } else {
            s1
        };
        greedy_best_from(last, work, j + 1, s2.0, s2.1, s2.2)
    }
}

/// The remaining polyline the chain takes next: the one whose nearer
/// endpoint is closest to the chain's last point, reversed exactly when
/// its tail endpoint was the strictly nearer candidate.
pub open spec fn greedy_pick(
    last: PlanarPoint,
    work: Seq<(Seq<PlanarPoint>, (u8, u8, u8))>,
) -> (int, bool) {
    let t = greedy_best_from(last, work, 0, 0, false, greedy_far());
    (t.0, t.1)
}

/// Greedy chaining: while polylines remain, append the pick for the
/// chain's current last point, reversing it when its tail was nearer.
pub open spec fn greedy_acc(
    work: Seq<(Seq<PlanarPoint>, (u8, u8, u8))>,
    ordered: Seq<(Seq<PlanarPoint>, (u8, u8, u8))>,
) -> Seq<(Seq<PlanarPoint>, (u8, u8, u8))>
    decreases work.len(),
{
    if work.len() == 0 || ordered.len() == 0 {
        ordered
    } else {
        let last = ordered.last().0.last();
        let pick = greedy_pick(last, work);
        if 0 <= pick.0 < work.len() {
            let chosen = if pick.1 {
                (work[pick.0].0.reverse(), work[pick.0].1)
            } else {
                work[pick.0]
            };
            greedy_acc(work.remove(pick.0), ordered.push(chosen))
        } else {
            ordered
        }
    }
}

/// The greedy nearest-neighbor order of a polyline list: the chain
/// starts from the last polyline and grows by `greedy_acc`.
pub open spec fn spec_greedy_order(lines: Seq<(Seq<PlanarPoint>, (u8, u8, u8))>) -> Seq<
    (Seq<PlanarPoint>, (u8, u8, u8)),
> {
    if lines.len() == 0 {
        lines
    } else {
        greedy_acc(lines.drop_last(), seq![lines.last()])
    }
}

/// Order polylines by greedy nearest-neighbor chaining: starting from
/// the last polyline, repeatedly append the remaining polyline whose
/// nearer endpoint is closest to the chain's last point, reversed when
/// its far endpoint is the nearer one.
///
/// The result is exactly the chain `spec_greedy_order` describes; in
/// particular no polyline is dropped or duplicated -- the output is a
/// permutation of the input up to per-polyline reversal, with the
/// input's length.
#[verifier::loop_isolation(false)]
pub fn greedy_order_lines(lines: Vec<Polyline<PlanarPoint>>) -> (r: Vec<Polyline<PlanarPoint>>)
    requires
        forall|i: int| 0 <= i < lines@.len() ==> pl_ok(#[trigger] lines@[i]),
    ensures
        r@.map_values(|l: Polyline<PlanarPoint>| pl_model(l)) == spec_greedy_order(
            lines@.map_values(|l: Polyline<PlanarPoint>| pl_model(l)),
        ),
        r@.len() == lines@.len(),
        key_multiset(r@.map_values(|l: Polyline<PlanarPoint>| pl_model(l))) == key_multiset(
            lines@.map_values(|l: Polyline<PlanarPoint>| pl_model(l)),
        ),
        forall|i: int| 0 <= i < r@.len() ==> pl_ok(#[trigger] r@[i]),
{
    broadcast use vstd::seq_lib::group_to_multiset_ensures;

    let ghost inms = lines@.map_values(|l: Polyline<PlanarPoint>| pl_model(l));
    let mut work = lines;
    let mut ordered: Vec<Polyline<PlanarPoint>> = Vec::new();
    if work.len() == 0 {
        proof {
            assert(ordered@.map_values(|l: Polyline<PlanarPoint>| pl_model(l)) =~= inms);
            assert(spec_greedy_order(inms) == inms);
        }
        return ordered;
    }
    let first = match work.pop() {
        Some(l) => l,
        None => {
            proof {
                assert(false);
            }
            unreached()
        },
    };
    ordered.push(first);
    proof {
        assert(ordered@.map_values(|l: Polyline<PlanarPoint>| pl_model(l)) =~= seq![
            pl_model(first),
        ]);
        assert(pl_model(first) == inms[inms.len() - 1]);
        assert(work@.map_values(|l: Polyline<PlanarPoint>| pl_model(l)) =~= inms.drop_last());
        assert(seq![pl_model(first)] =~= seq![inms.last()]);
        lemma_key_move(inms, work@.map_values(|l: Polyline<PlanarPoint>| pl_model(l)),
            ordered@.map_values(|l: Polyline<PlanarPoint>| pl_model(l)), inms);
    }
    while work.len() > 0
        invariant
            1 <= ordered@.len(),
            ordered@.len() + work@.len() == inms.len(),
            forall|k: int| 0 <= k < work@.len() ==> pl_ok(#[trigger] work@[k]),
            forall|k: int| 0 <= k < ordered@.len() ==> pl_ok(#[trigger] ordered@[k]),
            key_multiset(
                ordered@.map_values(|l: Polyline<PlanarPoint>| pl_model(l)),
            ).add(key_multiset(work@.map_values(|l: Polyline<PlanarPoint>| pl_model(l))))
                == key_multiset(inms),
            spec_greedy_order(inms) == greedy_acc(
                work@.map_values(|l: Polyline<PlanarPoint>| pl_model(l)),
                ordered@.map_values(|l: Polyline<PlanarPoint>| pl_model(l)),
            ),
        decreases work@.len(),
    {
        let ghost wm0 = work@.map_values(|l: Polyline<PlanarPoint>| pl_model(l));
        let ghost om0 = ordered@.map_values(|l: Polyline<PlanarPoint>| pl_model(l));
        let lastline = &ordered[ordered.len() - 1];
        let last: PlanarPoint = lastline.points[lastline.points.len() - 1];
        proof {
            assert(om0[om0.len() - 1] == pl_model(ordered@[ordered@.len() - 1]));
            assert(last == om0.last().0.last());
        }
        let mut best_i: usize = 0;
        let mut best_rev: bool = false;
        let mut best_d: i128 = 170141183460469231731687303715884105727;
        let mut j: usize = 0;
        while j < work.len()
            invariant
                0 <= j <= work@.len(),
                wm0 == work@.map_values(|l: Polyline<PlanarPoint>| pl_model(l)),
                j == 0 ==> best_d == 170141183460469231731687303715884105727 && best_i == 0
                    && !best_rev,
                j >= 1 ==> best_d < 170141183460469231731687303715884105727 && best_i
                    < work@.len(),
                pp_bounded(last),
                greedy_best_from(last, wm0, 0, 0, false, greedy_far()) == greedy_best_from(
                    last,
                    wm0,
                    j as int,
                    best_i as int,
                    best_rev,
                    best_d as int,
                ),
            decreases work@.len() - j,
        {
            proof {
                assert(wm0[j as int] == pl_model(work@[j as int]));
            }
            let d0 = d2_val(last, work[j].points[0]);
            let d1 = d2_val(last, work[j].points[work[j].points.len() - 1]);
            proof {
                assert(d0 as int == d2(last, wm0[j as int].0.first()));
                assert(d1 as int == d2(last, wm0[j as int].0.last()));
            }
            if d0 < best_d {
                best_d = d0;
                best_i = j;
                best_rev = false;
            }
            if d1 < best_d {
                best_d = d1;
                best_i = j;
                best_rev = true;
            }
            j = j + 1;
        }
        proof {
            assert(greedy_pick(last, wm0) == (best_i as int, best_rev));
        }
        let ghost work_mid = work@.map_values(|l: Polyline<PlanarPoint>| pl_model(l));
        let next = work.remove(best_i);
        proof {
            assert(work@.map_values(|l: Polyline<PlanarPoint>| pl_model(l)) =~= work_mid.remove(
                best_i as int,
            ));
        }
        let chosen: Polyline<PlanarPoint> = if best_rev {
            let rev = reversed_points(&next.points);
            proof {
                lemma_key_reverse(pl_model(next));
                assert(forall|q: int|
                    0 <= q < rev@.len() ==> pp_bounded(#[trigger] rev@[q]));
            }
            Polyline { points: rev, color: next.color }
        } else {
            next
        };
        let ghost ordered_mid = ordered@.map_values(|l: Polyline<PlanarPoint>| pl_model(l));
        ordered.push(chosen);
        proof {
            assert(ordered@.map_values(|l: Polyline<PlanarPoint>| pl_model(l)) =~= ordered_mid.push(
                pl_model(chosen),
            ));
            assert(line_key(pl_model(chosen)) == line_key(work_mid[best_i as int]));
            lemma_key_transfer(ordered_mid, work_mid, best_i as int, pl_model(chosen), inms);
            if best_rev {
                assert(pl_model(chosen) == (wm0[best_i as int].0.reverse(), wm0[
                    best_i as int].1));
            } else {
                assert(pl_model(chosen) == wm0[best_i as int]);
            }
            assert(greedy_acc(wm0, om0) == greedy_acc(
                wm0.remove(best_i as int),
                om0.push(pl_model(chosen)),
            ));
        }
    }
    proof {
        assert(key_multiset(work@.map_values(|l: Polyline<PlanarPoint>| pl_model(l)))
            =~= Multiset::<(Set<Seq<PlanarPoint>>, (u8, u8, u8))>::empty());
        assert(key_multiset(ordered@.map_values(|l: Polyline<PlanarPoint>| pl_model(l))).add(
            Multiset::empty(),
        ) =~= key_multiset(ordered@.map_values(|l: Polyline<PlanarPoint>| pl_model(l))));
        assert(greedy_acc(
            work@.map_values(|l: Polyline<PlanarPoint>| pl_model(l)),
            ordered@.map_values(|l: Polyline<PlanarPoint>| pl_model(l)),
        ) == ordered@.map_values(|l: Polyline<PlanarPoint>| pl_model(l)));
    }
    ordered
}

/// Moving the last polyline of the input over to the chain keeps the
/// combined multiset.
proof fn lemma_key_move(
    inms: Seq<(Seq<PlanarPoint>, (u8, u8, u8))>,
    wm: Seq<(Seq<PlanarPoint>, (u8, u8, u8))>,
    om: Seq<(Seq<PlanarPoint>, (u8, u8, u8))>,
    full: Seq<(Seq<PlanarPoint>, (u8, u8, u8))>,
)
    requires
        inms.len() >= 1,
        wm == inms.drop_last(),
        om == seq![inms.last()],
        full == inms,
    ensures
        key_multiset(om).add(key_multiset(wm)) == key_multiset(full),
{
    broadcast use vstd::seq_lib::group_to_multiset_ensures;

    let keys = inms.map_values(|m: (Seq<PlanarPoint>, (u8, u8, u8))| line_key(m));
    assert(wm.map_values(|m: (Seq<PlanarPoint>, (u8, u8, u8))| line_key(m)) =~= keys.drop_last());
    assert(keys =~= keys.drop_last().push(keys.last()));
    assert(keys.drop_last().push(keys.last()).to_multiset() =~= keys.drop_last().to_multiset().insert(
        keys.last(),
    ));
    assert(om.map_values(|m: (Seq<PlanarPoint>, (u8, u8, u8))| line_key(m)) =~= Seq::empty().push(
        keys.last(),
    ));
    assert(Seq::<(Set<Seq<PlanarPoint>>, (u8, u8, u8))>::empty().push(keys.last()).to_multiset()
        =~= Multiset::empty().insert(keys.last()));
    assert(Multiset::empty().insert(keys.last()).add(keys.drop_last().to_multiset())
        =~= keys.drop_last().to_multiset().insert(keys.last()));
}

/// Taking a polyline out of the remaining set and chaining it (possibly
/// reversed) keeps the combined multiset.
proof fn lemma_key_transfer(
    om: Seq<(Seq<PlanarPoint>, (u8, u8, u8))>,
    wm: Seq<(Seq<PlanarPoint>, (u8, u8, u8))>,
    i: int,
    chosen: (Seq<PlanarPoint>, (u8, u8, u8)),
    inms: Seq<(Seq<PlanarPoint>, (u8, u8, u8))>,
)
    requires
        0 <= i < wm.len(),
        line_key(chosen) == line_key(wm[i]),
        key_multiset(om).add(key_multiset(wm)) == key_multiset(inms),
    ensures
        key_multiset(om.push(chosen)).add(key_multiset(wm.remove(i))) == key_multiset(inms),
{
    broadcast use vstd::seq_lib::group_to_multiset_ensures;

    let okeys = om.map_values(|m: (Seq<PlanarPoint>, (u8, u8, u8))| line_key(m));
    let wkeys = wm.map_values(|m: (Seq<PlanarPoint>, (u8, u8, u8))| line_key(m));
    assert(om.push(chosen).map_values(|m: (Seq<PlanarPoint>, (u8, u8, u8))| line_key(m))
        =~= okeys.push(line_key(wm[i])));
    assert(wm.remove(i).map_values(|m: (Seq<PlanarPoint>, (u8, u8, u8))| line_key(m))
        =~= wkeys.remove(i));
    assert(okeys.push(line_key(wm[i])).to_multiset() =~= okeys.to_multiset().insert(
        line_key(wm[i]),
    ));
    assert(wkeys.remove(i).to_multiset() =~= wkeys.to_multiset().remove(wkeys[i]));
    assert(wkeys[i] == line_key(wm[i]));
    assert(wkeys.to_multiset().count(wkeys[i]) > 0) by {
        assert(wkeys.contains(wkeys[i]));
    }
    assert(okeys.to_multiset().insert(line_key(wm[i])).add(
        wkeys.to_multiset().remove(wkeys[i]),
    ) =~= okeys.to_multiset().add(wkeys.to_multiset()));
}

/// Scale projected coordinates by the half window side, so every
/// coordinate lands in thousandths of it.
/// One point scaled by the half window side into thousandths.
pub open spec fn norm_point(p: PlanarPoint, half: int) -> PlanarPoint {
    PlanarPoint {
        x: div_to_zero(p.x * 1000, half) as i64,
        y: div_to_zero(p.y * 1000, half) as i64,
    }
}

/// A polyline list scaled by the half window side into thousandths.
pub open spec fn spec_normalize(
    lines: Seq<(Seq<PlanarPoint>, (u8, u8, u8))>,
    side: int,
) -> Seq<(Seq<PlanarPoint>, (u8, u8, u8))> {
    lines.map_values(
        |m: (Seq<PlanarPoint>, (u8, u8, u8))|
            (m.0.map_values(|p: PlanarPoint| norm_point(p, side / 2)), m.1),
    )
}

pub fn normalize(lines: &mut Vec<Polyline<PlanarPoint>>, side_mm: i64)
    requires
        2 <= side_mm <= 1000000000000,
        forall|i: int| 0 <= i < old(lines)@.len() ==> pl_ok(#[trigger] old(lines)@[i]),
    ensures
        final(lines)@.map_values(|l: Polyline<PlanarPoint>| pl_model(l)) == spec_normalize(
            old(lines)@.map_values(|l: Polyline<PlanarPoint>| pl_model(l)),
            side_mm as int,
        ),
        final(lines)@.len() == old(lines)@.len(),
        forall|i: int|
            0 <= i < final(lines)@.len() ==> {
                let np = (#[trigger] final(lines)@[i]).points@;
                let op = old(lines)@[i].points@;
                &&& final(lines)@[i].color == old(lines)@[i].color
                &&& np.len() == op.len()
                &&& forall|j: int|
                    0 <= j < np.len() ==> (#[trigger] np[j]).x == div_to_zero(
                        op[j].x * 1000,
                        side_mm as int / 2,
                    ) && np[j].y == div_to_zero(op[j].y * 1000, side_mm as int / 2)
            },
        forall|i: int| 0 <= i < final(lines)@.len() ==> (#[trigger] final(lines)@[i]).points@.len()
            >= 2,
{
    let half: i64 = side_mm / 2;
    let mut out: Vec<Polyline<PlanarPoint>> = Vec::new();
    let n = lines.len();
    let mut i: usize = 0;
    while i < n
        invariant
            0 <= i <= n,
            n == old(lines)@.len(),
            lines@ == old(lines)@,
            half == side_mm / 2,
            1 <= half <= 500000000000,
            2 <= side_mm <= 1000000000000,
            forall|k: int| 0 <= k < old(lines)@.len() ==> pl_ok(#[trigger] old(lines)@[k]),
            out@.len() == i,
            forall|k: int|
                0 <= k < i ==> {
                    let np = (#[trigger] out@[k]).points@;
                    let op = old(lines)@[k].points@;
                    &&& out@[k].color == old(lines)@[k].color
                    &&& np.len() == op.len()
                    &&& np.len() >= 2
                    &&& forall|j: int|
                        0 <= j < np.len() ==> (#[trigger] np[j]).x == div_to_zero(
                            op[j].x * 1000,
                            side_mm as int / 2,
                        ) && np[j].y == div_to_zero(op[j].y * 1000, side_mm as int / 2)
                },
        decreases n - i,
    {
        let line = &lines[i];
        let mut pts: Vec<PlanarPoint> = Vec::new();
        let mut j: usize = 0;
        while j < line.points.len()
            invariant
                0 <= j <= line.points@.len(),
                line == &lines@[i as int],
                i < lines@.len(),
                lines@ == old(lines)@,
                half == side_mm / 2,
                1 <= half <= 500000000000,
                forall|k: int| 0 <= k < old(lines)@.len() ==> pl_ok(#[trigger] old(lines)@[k]),
                pts@.len() == j,
                forall|q: int|
                    0 <= q < j ==> (#[trigger] pts@[q]).x == div_to_zero(
                        line.points@[q].x * 1000,
                        side_mm as int / 2,
                    ) && pts@[q].y == div_to_zero(line.points@[q].y * 1000, side_mm as int / 2),
            decreases line.points@.len() - j,
        {
            let p = line.points[j];
            proof {
                assert(pl_ok(old(lines)@[i as int]));
                assert(pp_bounded(p));
            }
            let nx = crate::numeric::div_to_zero_i64(p.x * 1000, half);
            let ny = crate::numeric::div_to_zero_i64(p.y * 1000, half);
            pts.push(PlanarPoint { x: nx, y: ny });
            j = j + 1;
        }
        out.push(Polyline { points: pts, color: line.color });
        i = i + 1;
    }
    *lines = out;
    proof {
        let om = old(lines)@.map_values(|l: Polyline<PlanarPoint>| pl_model(l));
        assert(lines@.map_values(|l: Polyline<PlanarPoint>| pl_model(l)) =~= spec_normalize(
            om,
            side_mm as int,
        )) by {
            assert forall|k: int| 0 <= k < lines@.len() implies #[trigger] pl_model(lines@[k])
                == (
                om[k].0.map_values(|p: PlanarPoint| norm_point(p, side_mm as int / 2)),
                om[k].1,
            ) by {
                assert(om[k] == pl_model(old(lines)@[k]));
                assert(lines@[k].points@ =~= om[k].0.map_values(
                    |p: PlanarPoint| norm_point(p, side_mm as int / 2),
                )) by {
                    assert forall|j: int|
                        0 <= j < lines@[k].points@.len() implies #[trigger] lines@[k].points@[j]
                        == norm_point(om[k].0[j], side_mm as int / 2) by {
                        assert(pl_ok(old(lines)@[k]));
                        assert(pp_bounded(old(lines)@[k].points@[j]));
                        lemma_norm_point_fits(old(lines)@[k].points@[j], side_mm as int / 2);
                    }
                }
            }
        }
    }
}

/// The scaled coordinates fit the machine word, so the spec's cast is
/// exact.
proof fn lemma_norm_point_fits(p: PlanarPoint, half: int)
    requires
        pp_bounded(p),
        1 <= half,
    ensures
        -1000000000000000 <= div_to_zero(p.x * 1000, half) <= 1000000000000000,
        -1000000000000000 <= div_to_zero(p.y * 1000, half) <= 1000000000000000,
{
    lemma_div_to_zero_magnitude(p.x * 1000, half);
    lemma_div_to_zero_magnitude(p.y * 1000, half);
}

/// Dividing toward zero never grows the magnitude.
proof fn lemma_div_to_zero_magnitude(a: int, b: int)
    requires
        1 <= b,
    ensures
        a >= 0 ==> 0 <= div_to_zero(a, b) <= a,
        a < 0 ==> a <= div_to_zero(a, b) <= 0,
{
    if a >= 0 {
        vstd::arithmetic::div_mod::lemma_div_is_ordered(0, a, b);
        vstd::arithmetic::div_mod::lemma_div_nonincreasing(a, b);
    } else {
        vstd::arithmetic::div_mod::lemma_div_is_ordered(0, -a, b);
        vstd::arithmetic::div_mod::lemma_div_nonincreasing(-a, b);
    }
}

/// A normalized coordinate (thousandths of the half window) mapped to
/// the 8-bit DAC range, clamped at the edges and rounded to nearest.
pub open spec fn norm_dac(v: int) -> u8 {
    if v < -1000 {
        0u8
    } else if v > 1000 {
        255u8
    } else {
        (((v + 1000) * 255 + 1000) / 2000) as u8
    }
}

/// Map a normalized coordinate to the DAC range.
pub fn norm_dac_exec(v: i64) -> (r: u8)
    ensures
        r == norm_dac(v as int),
{
    if v < -1000 {
        0
    } else if v > 1000 {
        255
    } else {
        (((v + 1000) * 255 + 1000) / 2000) as u8
    }
}

/// The squared distance between two device positions.
pub open spec fn dac_d2(px: u8, py: u8, x: u8, y: u8) -> int {
    (x - px) * (x - px) + (y - py) * (y - py)
}

/// The pen-up move delay to a polyline's first point: the straight-line
/// device distance from the previous position (a fixed fallback with no
/// previous position), plus the configured extra settle time.
pub open spec fn move_delay(prev: Option<(u8, u8)>, x: u8, y: u8, extra: u16) -> int {
    (match prev {
        Option::Some(p) => crate::numeric::sqrt_floor(dac_d2(p.0, p.1, x, y) as nat) as int,
        Option::None => 1000,
    }) + extra
}

/// The interpolated device coordinate at step `s` of `steps` between
/// `from` and `to`, rounded to nearest.
pub open spec fn dac_interp(from: u8, to: u8, s: int, steps: int) -> int {
    crate::numeric::div_round_half(from * steps + (to - from) * s, steps)
}

/// The sub-points drawn along one device segment, one per whole device
/// unit, each held one microsecond.
pub open spec fn seg_draw_points(
    px: u8,
    py: u8,
    x: u8,
    y: u8,
    color: (u8, u8, u8),
    steps: int,
) -> Seq<Point> {
    Seq::new(
        steps as nat,
        |s: int| Point {
            x: dac_interp(px, x, s + 1, steps) as u8,
            y: dac_interp(py, y, s + 1, steps) as u8,
            color: color,
            delay: 1,
        },
    )
}

/// Emitting one polyline from point `k` on: the first point gets a
/// blanked move and a beam-on point, every further point is approached
/// in unit steps and then held briefly.
pub open spec fn emit_line_acc(
    points: Seq<PlanarPoint>,
    k: int,
    prev: Option<(u8, u8)>,
    acc: Seq<Point>,
    color: (u8, u8, u8),
    move_extra: u16,
    on_delay: u16,
) -> (Seq<Point>, Option<(u8, u8)>)
    decreases points.len() - k,
{
    if k < 0 || k >= points.len() {
        (acc, prev)
    } else {
        let x = norm_dac(points[k].x as int);
        let y = norm_dac(-points[k].y as int);
        if k == 0 {
            let d = move_delay(prev, x, y, move_extra);
            let acc2 = acc.push(Point { x, y, color: (0u8, 0u8, 0u8), delay: d as u16 }).push(
                Point { x, y, color, delay: on_delay },
            );
            emit_line_acc(points, k + 1, Some((x, y)), acc2, color, move_extra, on_delay)
        } else {
            let p = prev->0;
            let steps = crate::numeric::sqrt_ceil(dac_d2(p.0, p.1, x, y) as nat) as int;
            let acc2 = acc + seg_draw_points(p.0, p.1, x, y, color, steps) + seq![
                Point { x, y, color, delay: 100u16 },
            ];
            emit_line_acc(points, k + 1, Some((x, y)), acc2, color, move_extra, on_delay)
        }
    }
}

/// Emitting a polyline list in order, threading the beam position; a
/// polyline shorter than two points is skipped, and the position is
/// forgotten between polylines when `reset_prev` is set.
pub open spec fn emit_acc(
    lines: Seq<(Seq<PlanarPoint>, (u8, u8, u8))>,
    i: int,
    prev: Option<(u8, u8)>,
    acc: Seq<Point>,
    move_extra: u16,
    on_delay: u16,
    reset_prev: bool,
) -> (Seq<Point>, Option<(u8, u8)>)
    decreases lines.len() - i,
{
    if i < 0 || i >= lines.len() {
        (acc, prev)
    } else if lines[i].0.len() < 2 {
        emit_acc(lines, i + 1, prev, acc, move_extra, on_delay, reset_prev)
    } else {
        let pr = if reset_prev {
            Option::None
        } else {
            prev
        };
        let st = emit_line_acc(lines[i].0, 0, pr, acc, lines[i].1, move_extra, on_delay);
        emit_acc(lines, i + 1, st.1, st.0, move_extra, on_delay, reset_prev)
    }
}

/// Turn ordered polylines into a timed device path: a blanked move and a
/// beam-on point open each polyline, unit-step interpolation with brief
/// vertex settles draws it.
#[verifier::loop_isolation(false)]
#[verifier::rlimit(60)]
pub fn polylines_to_path(
    lines: &Vec<Polyline<PlanarPoint>>,
    move_extra: u16,
    on_delay: u16,
    reset_prev: bool,
) -> (r: Path)
    requires
        move_extra <= 1000,
    ensures
        r@ == emit_acc(
            lines@.map_values(|l: Polyline<PlanarPoint>| pl_model(l)),
            0,
            Option::None,
            Seq::empty(),
            move_extra,
            on_delay,
            reset_prev,
        ).0,
{
    let ghost lv = lines@.map_values(|l: Polyline<PlanarPoint>| pl_model(l));
    let mut out: Path = Vec::new();
    let mut prev: Option<(u8, u8)> = None;
    let mut i: usize = 0;
    proof {
        assert(out@ =~= Seq::<Point>::empty());
    }
    while i < lines.len()
        invariant
            0 <= i <= lines@.len(),
            emit_acc(lv, 0, Option::None, Seq::empty(), move_extra, on_delay, reset_prev)
                == emit_acc(lv, i as int, prev, out@, move_extra, on_delay, reset_prev),
        decreases lines@.len() - i,
    {
        proof {
            assert(lv[i as int] == pl_model(lines@[i as int]));
        }
        let line = &lines[i];
        if line.points.len() >= 2 {
            if reset_prev {
                prev = None;
            }
            let color = line.color;
            let mut k: usize = 0;
            let ghost acc0 = out@;
            let ghost prev0 = prev;
            while k < line.points.len()
                invariant
                    0 <= k <= line.points@.len(),
                    k >= 1 ==> prev is Some,
                    emit_line_acc(
                        line.points@,
                        0,
                        prev0,
                        acc0,
                        color,
                        move_extra,
                        on_delay,
                    ) == emit_line_acc(
                        line.points@,
                        k as int,
                        prev,
                        out@,
                        color,
                        move_extra,
                        on_delay,
                    ),
                decreases line.points@.len() - k,
            {
                let p = line.points[k];
                let x = norm_dac_exec(p.x);
                let y = norm_dac_exec(if p.y > -9223372036854775807 {
                    -p.y
                } else {
                    9223372036854775807
                });
                proof {
                    assert(y == norm_dac(-p.y as int));
                }
                if k == 0 {
                    let base: u16 = match prev {
                        Some(pp) => {
                            let dd = dac_d2_exec(pp.0, pp.1, x, y);
                            let sq = crate::numeric::isqrt(dd);
                            proof {
                                crate::numeric::lemma_sqrt_floor_is(dd as nat);
                                assert(sq <= 361) by (nonlinear_arith)
                                    requires sq * sq <= 130050int, sq >= 0;
                            }
                            sq as u16
                        },
                        None => 1000,
                    };
                    let d: u16 = base + move_extra;
                    out.push(Point { x, y, color: (0, 0, 0), delay: d });
                    out.push(Point { x, y, color, delay: on_delay });
                    prev = Some((x, y));
                } else {
                    let pp = match prev {
                        Some(q) => q,
                        None => {
                            proof {
                                assert(false);
                            }
                            unreached()
                        },
                    };
                    let dd = dac_d2_exec(pp.0, pp.1, x, y);
                    let steps = crate::numeric::ceil_sqrt(dd);
                    proof {
                        crate::numeric::lemma_sqrt_floor_is(dd as nat);
                        if dd > 0 {
                            assert(steps <= 361) by (nonlinear_arith)
                                requires (steps - 1) * (steps - 1) < 130051int, steps >= 1;
                        }
                    }
                    let ghost sub = seg_draw_points(pp.0, pp.1, x, y, color, steps as int);
                    let ghost mid0 = out@;
                    let mut s: u64 = 1;
                    while s <= steps
                        invariant
                            1 <= s <= steps + 1,
                            steps <= 361,
                            sub == seg_draw_points(pp.0, pp.1, x, y, color, steps as int),
                            sub.len() == steps,
                            out@ =~= mid0 + sub.take(s - 1),
                        decreases steps + 1 - s,
                    {
                        proof {
                            assert(0 <= (pp.0 as int) * (steps as int) <= 92055int && 0 <= (
                            pp.1 as int) * (steps as int) <= 92055int) by (nonlinear_arith)
                                requires
                                    0 <= pp.0 as int <= 255,
                                    0 <= pp.1 as int <= 255,
                                    1 <= steps as int <= 361,
                            ;
                            assert(-92310int <= ((x as int) - (pp.0 as int)) * (s as int)
                                <= 92310int && -92310int <= ((y as int) - (pp.1 as int)) * (
                            s as int) <= 92310int) by (nonlinear_arith)
                                requires
                                    -255 <= (x as int) - (pp.0 as int) <= 255,
                                    -255 <= (y as int) - (pp.1 as int) <= 255,
                                    1 <= s as int <= 362,
                            ;
                        }
                        let ix = crate::numeric::div_round_half_i64(
                            pp.0 as i64 * steps as i64 + (x as i64 - pp.0 as i64) * s as i64,
                            steps as i64,
                        );
                        let iy = crate::numeric::div_round_half_i64(
                            pp.1 as i64 * steps as i64 + (y as i64 - pp.1 as i64) * s as i64,
                            steps as i64,
                        );
                        proof {
                            lemma_dac_interp_range(pp.0, x, s as int, steps as int);
                            lemma_dac_interp_range(pp.1, y, s as int, steps as int);
                            assert(sub[s - 1] == Point {
                                x: dac_interp(pp.0, x, s as int, steps as int) as u8,
                                y: dac_interp(pp.1, y, s as int, steps as int) as u8,
                                color: color,
                                delay: 1u16,
                            });
                            assert(sub.take(s as int) =~= sub.take(s - 1).push(sub[s - 1]));
                        }
                        out.push(Point { x: ix as u8, y: iy as u8, color, delay: 1 });
                        s = s + 1;
                    }
                    proof {
                        assert(out@ =~= mid0 + sub);
                    }
                    out.push(Point { x, y, color, delay: 100 });
                    proof {
                        assert(out@ =~= mid0 + sub + seq![
                            Point { x, y, color, delay: 100u16 },
                        ]);
                    }
                    prev = Some((x, y));
                }
                k = k + 1;
            }
        }
        i = i + 1;
    }
    out
}

/// The squared device distance.
fn dac_d2_exec(px: u8, py: u8, x: u8, y: u8) -> (r: u64)
    ensures
        r == dac_d2(px, py, x, y),
        r <= 130050,
{
    let dx: i64 = x as i64 - px as i64;
    let dy: i64 = y as i64 - py as i64;
    proof {
        assert(0 <= dx * dx <= 65025int && 0 <= dy * dy <= 65025int) by (nonlinear_arith)
            requires -255 <= dx <= 255i64, -255 <= dy <= 255i64;
    }
    (dx * dx + dy * dy) as u64
}

/// An interpolated device coordinate stays on the device range.
proof fn lemma_dac_interp_range(from: u8, to: u8, s: int, steps: int)
    requires
        1 <= s <= steps,
        steps >= 1,
    ensures
        0 <= dac_interp(from, to, s, steps) <= 255,
{
    let num = from * steps + (to - from) * s;
    assert(0 <= num <= 255 * steps) by (nonlinear_arith)
        requires
            num == from * steps + (to - from) * s,
            0 <= from <= 255,
            0 <= to <= 255,
            1 <= s <= steps,
    ;
    if num >= 0 {
        assert(dac_interp(from, to, s, steps) == (num + steps / 2) / steps);
        vstd::arithmetic::div_mod::lemma_div_pos_is_pos(num + steps / 2, steps);
        assert(num + steps / 2 < (255 + 1) * steps) by (nonlinear_arith)
            requires num <= 255 * steps, steps >= 1;
        vstd::arithmetic::div_mod::lemma_multiply_divide_lt(num + steps / 2, steps, 256);
    }
}

} // verus!
