//! The scene layer: stateful generators that each produce one scan path
//! per animation frame, an input-controls snapshot they may react to,
//! and a cycling combinator that owns a collection of them.

use vstd::prelude::*;

use crate::font::{FontMapping, HersheyRenderer};
use crate::geo;
use crate::geo::{PlanarPoint, Polyline};
use crate::ilda::{decode_rec, kpps_delay, spec_default_palette, read_ilda};
use crate::point::{Path, Point};
use crate::textpath;

verus! {

/// A transient input snapshot: two axes clamped to minus one, zero or
/// one, and two buttons.
#[derive(Clone, Copy, Debug, PartialEq, Eq, Structural)]
pub struct Controls {
    /// The x (horizontal) axis.
    pub x: i8,
    /// The y (vertical) axis.
    pub y: i8,
    /// The primary button.
    pub a: bool,
    /// The secondary button.
    pub b: bool,
}

impl Default for Controls {
    /// Centered axes, no buttons pressed.
    fn default() -> (r: Self)
        ensures
            r.x == 0 && r.y == 0 && !r.a && !r.b,
    {
        Controls { x: 0, y: 0, a: false, b: false }
    }
}

/// Clamp a raw joystick reading to a direction: its sign.
pub fn clamp_joystick(val: i16) -> (r: i8)
    ensures
        val < 0 ==> r == -1,
        val == 0 ==> r == 0,
        val > 0 ==> r == 1,
{
    if val < 0 {
        -1
    } else if val == 0 {
        0
    } else {
        1
    }
}

/// Decode a six-byte controller report: the two axes centered on 128
/// and clamped to directions, and the two active-low buttons from the
/// last byte.
pub fn decode_controller_report(report: &[u8]) -> (r: Controls)
    requires
        report@.len() >= 6,
    ensures
        r.x == (if report@[0] < 128 { -1int } else if report@[0] == 128 { 0int } else { 1int }),
        r.y == (if report@[1] < 128 { -1int } else if report@[1] == 128 { 0int } else { 1int }),
        r.a == (report@[5] & 0x02 == 0),
        r.b == (report@[5] & 0x01 == 0),
{
    let x = clamp_joystick(report[0] as i16 - 128);
    let y = clamp_joystick(report[1] as i16 - 128);
    let a = report[5] & 0x02 == 0;
    let b = report[5] & 0x01 == 0;
    Controls { x, y, a, b }
}

/// A source of wall-clock time: seconds since the Unix epoch.
pub trait TimeSource {
    /// The current time in whole seconds since the epoch.
    fn now(&self) -> u64;
}

/// A time source pinned to one instant, for replaying and testing.
pub struct FixedTimeSource {
    pub secs: u64,
}

impl TimeSource for FixedTimeSource {
    fn now(&self) -> u64 {
        self.secs
    }
}

/// What every scene app offers: one path per frame, and an optional
/// reaction to a controls snapshot.
pub trait VectorApp {
    /// The scan path for the given frame.
    fn get_path(&mut self, frame: u64) -> Path;

    /// Take a controls snapshot; most apps ignore it.
    fn handle_controls(&mut self, controls: Controls);
}

/// Copy a path.
pub fn clone_path(p: &Path) -> (r: Path)
    ensures
        r@ == p@,
{
    let mut out: Path = Vec::new();
    let mut i: usize = 0;
    while i < p.len()
        invariant
            0 <= i <= p@.len(),
            out@ =~= p@.take(i as int),
        decreases p@.len() - i,
    {
        out.push(p[i]);
        i = i + 1;
    }
    proof {
        assert(out@ =~= p@);
    }
    out
}

/// A single steady alignment point at the center of the field.
pub struct Align {
    points: Path,
}

impl Align {
    /// The app's cached path.
    pub closed spec fn model(&self) -> Seq<Point> {
        self.points@
    }

    /// One dim centered point, held a full millisecond.
    pub fn new() -> (r: Self)
        ensures
            r.model() == seq![
                Point { x: 128u8, y: 128u8, color: (64u8, 128u8, 64u8), delay: 1000u16 },
            ],
    {
        let mut points: Path = Vec::new();
        points.push(Point { x: 128, y: 128, color: (64, 128, 64), delay: 1000 });
        proof {
            assert(points@ =~= seq![
                Point { x: 128u8, y: 128u8, color: (64u8, 128u8, 64u8), delay: 1000u16 },
            ]);
        }
        Align { points }
    }

    /// The cached path, every frame.
    pub fn produce(&self) -> (r: Path)
        ensures
            r@ == self.model(),
    {
        clone_path(&self.points)
    }
}

impl VectorApp for Align {
    fn get_path(&mut self, frame: u64) -> Path {
        self.produce()
    }

    fn handle_controls(&mut self, controls: Controls) {
    }
}

/// The row color the alphabet demo draws with.
pub const ALPHABET_COLOR: (u8, u8, u8) = (255, 0, 0);

/// The sample rows the alphabet demo shows, top to bottom.
pub open spec fn alphabet_line(i: int) -> Seq<u8> {
    if i == 0 || i == 1 {
        seq![49u8, 50u8, 51u8, 52u8, 53u8, 54u8, 55u8, 56u8]
    } else if i == 2 {
        seq![33u8, 64u8, 35u8, 36u8, 37u8, 94u8, 38u8, 42u8]
    } else if i == 3 || i == 4 {
        seq![65u8, 66u8, 67u8, 68u8, 69u8, 70u8, 71u8, 72u8]
    } else {
        seq![97u8, 98u8, 99u8, 100u8, 101u8, 102u8, 103u8, 104u8]
    }
}

/// The vertical position of each sample row.
pub open spec fn alphabet_line_y(i: int) -> int {
    32 * (i + 1)
}

/// The timed path of one alphabet row.
pub open spec fn alphabet_row_path(
    fm: crate::font::FontModel,
    cm: Seq<u16>,
    i: int,
) -> Seq<Point> {
    textpath::spec_synthesize(
        crate::font::spec_render(fm, cm, alphabet_line(i)),
        1000,
        1000,
        0,
        alphabet_line_y(i),
        ALPHABET_COLOR,
    )
}

/// Seven sample text rows rendered once through the timing synthesizer.
pub struct AlphabetDemo {
    points: Path,
}

impl AlphabetDemo {
    /// The app's cached path.
    pub closed spec fn model(&self) -> Seq<Point> {
        self.points@
    }

    /// Render the seven sample rows once.
    pub fn new(renderer: &HersheyRenderer, mapping: &FontMapping) -> (r: Self)
        requires
            renderer.wf(),
            mapping.wf(),
        ensures
            r.model() == alphabet_row_path(renderer.model(), mapping.model(), 0)
                + alphabet_row_path(renderer.model(), mapping.model(), 1) + alphabet_row_path(
                renderer.model(),
                mapping.model(),
                2,
            ) + alphabet_row_path(renderer.model(), mapping.model(), 3) + alphabet_row_path(
                renderer.model(),
                mapping.model(),
                4,
            ) + alphabet_row_path(renderer.model(), mapping.model(), 5) + alphabet_row_path(
                renderer.model(),
                mapping.model(),
                6,
            ),
    {
        let digits: Vec<u8> = vec![49, 50, 51, 52, 53, 54, 55, 56];
        let symbols: Vec<u8> = vec![33, 64, 35, 36, 37, 94, 38, 42];
        let upper: Vec<u8> = vec![65, 66, 67, 68, 69, 70, 71, 72];
        let lower: Vec<u8> = vec![97, 98, 99, 100, 101, 102, 103, 104];
        proof {
            assert(digits@ =~= alphabet_line(0));
            assert(symbols@ =~= alphabet_line(2));
            assert(upper@ =~= alphabet_line(3));
            assert(lower@ =~= alphabet_line(5));
        }
        let mut points = textpath::text_to_path(
            renderer,
            digits.as_slice(),
            0,
            32,
            1000,
            1000,
            ALPHABET_COLOR,
            mapping,
        );
        let mut p2 = textpath::text_to_path(
            renderer,
            digits.as_slice(),
            0,
            64,
            1000,
            1000,
            ALPHABET_COLOR,
            mapping,
        );
        points.append(&mut p2);
        let mut p3 = textpath::text_to_path(
            renderer,
            symbols.as_slice(),
            0,
            96,
            1000,
            1000,
            ALPHABET_COLOR,
            mapping,
        );
        points.append(&mut p3);
        let mut p4 = textpath::text_to_path(
            renderer,
            upper.as_slice(),
            0,
            128,
            1000,
            1000,
            ALPHABET_COLOR,
            mapping,
        );
        points.append(&mut p4);
        let mut p5 = textpath::text_to_path(
            renderer,
            upper.as_slice(),
            0,
            160,
            1000,
            1000,
            ALPHABET_COLOR,
            mapping,
        );
        points.append(&mut p5);
        let mut p6 = textpath::text_to_path(
            renderer,
            lower.as_slice(),
            0,
            192,
            1000,
            1000,
            ALPHABET_COLOR,
            mapping,
        );
        points.append(&mut p6);
        let mut p7 = textpath::text_to_path(
            renderer,
            lower.as_slice(),
            0,
            224,
            1000,
            1000,
            ALPHABET_COLOR,
            mapping,
        );
        points.append(&mut p7);
        AlphabetDemo { points }
    }

    /// The cached path, every frame.
    pub fn produce(&self) -> (r: Path)
        ensures
            r@ == self.model(),
    {
        clone_path(&self.points)
    }
}

impl VectorApp for AlphabetDemo {
    fn get_path(&mut self, frame: u64) -> Path {
        self.produce()
    }

    fn handle_controls(&mut self, controls: Controls) {
    }
}

/// Play one named frame of a decoded show file.
pub struct Ilda {
    points: Path,
}

impl Ilda {
    /// The app's cached frame.
    pub closed spec fn model(&self) -> Seq<Point> {
        self.points@
    }

    /// Decode a show file and keep the named frame; nothing to play when
    /// the file does not decode or holds no frame of that name.
    pub fn new(data: &[u8], kpps: u8, name: &[u8]) -> (r: Option<Self>)
        ensures
            ({
                let decoded = decode_rec(
                    data@,
                    0,
                    spec_default_palette(),
                    kpps_delay(kpps),
                    Map::empty(),
                );
                match r {
                    Option::Some(app) => decoded is Ok && decoded->Ok_0.contains_key(name@)
                        && app.model() == decoded->Ok_0[name@],
                    Option::None => decoded is Err || !decoded->Ok_0.contains_key(name@),
                }
            }),
    {
        let frames = match read_ilda(data, kpps) {
            Ok(f) => f,
            Err(_) => {
                return None;
            },
        };
        match frames.get(name) {
            Some(path) => Some(Ilda { points: clone_path(path) }),
            None => None,
        }
    }

    /// The cached frame, every frame of animation.
    pub fn produce(&self) -> (r: Path)
        ensures
            r@ == self.model(),
    {
        clone_path(&self.points)
    }
}

impl VectorApp for Ilda {
    fn get_path(&mut self, frame: u64) -> Path {
        self.produce()
    }

    fn handle_controls(&mut self, controls: Controls) {
    }
}

/// The color the road map draws with.
pub const MAPS_COLOR: (u8, u8, u8) = (255, 255, 255);

/// A normalized coordinate in thousandths, from a decimal field read at
/// microdegree precision.
pub open spec fn coord_milli(tok: Seq<u8>) -> int {
    crate::numeric::div_to_zero(geo::coord_udeg(tok), 1000)
}

/// Parsing a normalized polyline file: blank lines separate polylines,
/// every other line is an `x y` pair in `[-1, 1]`; groups shorter than
/// two points and malformed lines are dropped.
pub open spec fn maps_acc(
    lines: Seq<Seq<u8>>,
    i: int,
    cur: Seq<PlanarPoint>,
    acc: Seq<(Seq<PlanarPoint>, (u8, u8, u8))>,
) -> Seq<(Seq<PlanarPoint>, (u8, u8, u8))>
    decreases lines.len() - i,
{
    if i < 0 || i >= lines.len() {
        if cur.len() >= 2 {
            acc.push((cur, MAPS_COLOR))
        } else {
            acc
        }
    } else {
        let line = crate::parse::trim_sp(lines[i]);
        if line.len() == 0 {
            maps_acc(
                lines,
                i + 1,
                Seq::empty(),
                if cur.len() >= 2 {
                    acc.push((cur, MAPS_COLOR))
                } else {
                    acc
                },
            )
        } else {
            let k1 = crate::font::find_sp(line, 0);
            let tok1 = line.take(k1);
            let s2 = geo::find_non_sp(line, k1);
            let k2 = crate::font::find_sp(line, s2);
            let tok2 = line.subrange(s2, k2);
            if geo::valid_coord(tok1) && geo::valid_coord(tok2) {
                maps_acc(
                    lines,
                    i + 1,
                    cur.push(
                        PlanarPoint {
                            x: coord_milli(tok1) as i64,
                            y: coord_milli(tok2) as i64,
                        },
                    ),
                    acc,
                )
            } else {
                maps_acc(lines, i + 1, cur, acc)
            }
        }
    }
}

/// The polylines of a normalized road file.
pub open spec fn spec_maps_parse(data: Seq<u8>) -> Seq<(Seq<PlanarPoint>, (u8, u8, u8))> {
    maps_acc(crate::parse::spec_lines(data), 0, Seq::empty(), Seq::empty())
}

/// A static road map: normalized polylines read once and emitted as a
/// timed path, the beam position forgotten between polylines.
pub struct Maps {
    path: Path,
}

impl Maps {
    /// The app's cached path.
    pub closed spec fn model(&self) -> Seq<Point> {
        self.path@
    }

    /// Load the road file and precompute the path.
    pub fn new(data: &[u8]) -> (r: Self)
        ensures
            r.model() == geo::emit_acc(
                spec_maps_parse(data@),
                0,
                Option::None,
                Seq::empty(),
                0,
                1,
                true,
            ).0,
    {
        let lines = crate::parse::split_lines(data);
        let ghost lv = lines@.map_values(|v: Vec<u8>| v@);
        let mut polylines: Vec<Polyline<PlanarPoint>> = Vec::new();
        let mut cur: Vec<PlanarPoint> = Vec::new();
        let mut i: usize = 0;
        proof {
            assert(polylines@.map_values(|l: Polyline<PlanarPoint>| geo::pl_model(l)) =~= Seq::<
                (Seq<PlanarPoint>, (u8, u8, u8)),
            >::empty());
            assert(cur@ =~= Seq::<PlanarPoint>::empty());
        }
        while i < lines.len()
            invariant
                0 <= i <= lv.len(),
                lv == lines@.map_values(|v: Vec<u8>| v@),
                lv.len() == lines@.len(),
                spec_maps_parse(data@) == maps_acc(
                    lv,
                    i as int,
                    cur@,
                    polylines@.map_values(|l: Polyline<PlanarPoint>| geo::pl_model(l)),
                ),
            decreases lv.len() - i,
        {
            proof {
                assert(lv[i as int] == lines@[i as int]@);
            }
            let ghost acc0 = polylines@.map_values(|l: Polyline<PlanarPoint>| geo::pl_model(l));
            let lt = crate::parse::trim_spaces(lines[i].as_slice());
            if lt.len() == 0 {
                if cur.len() >= 2 {
                    let pts = cur;
                    polylines.push(Polyline { points: pts, color: MAPS_COLOR });
                    proof {
                        assert(polylines@.map_values(|l: Polyline<PlanarPoint>| geo::pl_model(l))
                            =~= acc0.push((cur@, MAPS_COLOR)));
                    }
                }
                cur = Vec::new();
            } else {
                let k1 = crate::font::find_space(lt.as_slice(), 0);
                let tok1 = crate::parse::subvec(lt.as_slice(), 0, k1);
                let s2 = geo::find_non_sp_exec(lt.as_slice(), k1);
                let k2 = crate::font::find_space(lt.as_slice(), s2);
                let tok2 = crate::parse::subvec(lt.as_slice(), s2, k2);
                proof {
                    assert(tok1@ =~= crate::parse::trim_sp(lv[i as int]).take(k1 as int));
                }
                let p1 = geo::parse_coord_udeg(tok1.as_slice());
                let p2 = geo::parse_coord_udeg(tok2.as_slice());
                if let (Ok(xu), Ok(yu)) = (p1, p2) {
                    let xm = crate::numeric::div_to_zero_i64(xu, 1000);
                    let ym = crate::numeric::div_to_zero_i64(yu, 1000);
                    cur.push(PlanarPoint { x: xm, y: ym });
                }
            }
            i = i + 1;
        }
        if cur.len() >= 2 {
            let ghost acc0 = polylines@.map_values(|l: Polyline<PlanarPoint>| geo::pl_model(l));
            let pts = cur;
            polylines.push(Polyline { points: pts, color: MAPS_COLOR });
            proof {
                assert(polylines@.map_values(|l: Polyline<PlanarPoint>| geo::pl_model(l))
                    =~= acc0.push((pts@, MAPS_COLOR)));
            }
        }
        let path = geo::polylines_to_path(&polylines, 0, 1, true);
        Maps { path }
    }

    /// The cached path, every frame.
    pub fn produce(&self) -> (r: Path)
        ensures
            r@ == self.model(),
    {
        clone_path(&self.path)
    }
}

impl VectorApp for Maps {
    fn get_path(&mut self, frame: u64) -> Path {
        self.produce()
    }

    fn handle_controls(&mut self, controls: Controls) {
    }
}

/// The transit map's projection center, in microdegrees.
pub const MBTA_CENTER_LAT_UDEG: i64 = 42358723;

/// The transit map's projection center, in microdegrees.
pub const MBTA_CENTER_LON_UDEG: i64 = -71057490;

/// The cosine of the center latitude, in parts per million.
pub const MBTA_COS_LAT_PPM: i64 = 738941;

/// The clip window side, in millimeters.
pub const MBTA_SIDE_MM: i64 = 20000000;

/// The endpoint merge tolerance, in millimeters.
pub const MBTA_TOL_MM: i64 = 500;

/// A transit map: geographic polylines projected, clipped, merged,
/// ordered and emitted as one timed path that parks the beam at the
/// center when done.
pub struct Mbta {
    path: Path,
}

/// The transit map's whole path: the polyline description parsed,
/// projected and clipped around the fixed center, merged, ordered,
/// normalized and emitted (position carried across polylines, 500 us
/// extra move settle, 100 us beam-on delay), with one trailing blanked
/// center point.
pub open spec fn spec_mbta_path(data: Seq<u8>) -> Seq<Point> {
    let parsed = geo::spec_parse_latlon(data);
    let cropped = geo::crop_acc(
        parsed,
        0,
        Seq::empty(),
        MBTA_CENTER_LAT_UDEG as int,
        MBTA_CENTER_LON_UDEG as int,
        MBTA_COS_LAT_PPM as int,
        MBTA_SIDE_MM as int / 2,
    );
    let merged = geo::spec_merge(cropped, (MBTA_TOL_MM * MBTA_TOL_MM) as int);
    let ordered = geo::spec_greedy_order(merged);
    let normalized = geo::spec_normalize(ordered, MBTA_SIDE_MM as int);
    geo::emit_acc(normalized, 0, Option::None, Seq::empty(), 500, 100, false).0.push(
        Point { x: 128u8, y: 128u8, color: (0u8, 0u8, 0u8), delay: 1u16 },
    )
}

impl Mbta {
    /// The app's cached path.
    pub closed spec fn model(&self) -> Seq<Point> {
        self.path@
    }

    /// The cached path always ends blanked at the center, so repeated
    /// frames leave no bright afterimage.
    pub closed spec fn wf(&self) -> bool {
        self.path@.len() >= 1 && self.path@.last() == Point {
            x: 128u8,
            y: 128u8,
            color: (0u8, 0u8, 0u8),
            delay: 1u16,
        }
    }

    /// Run the whole geographic pipeline on the polyline description and
    /// precompute the path.
    pub fn new(data: &[u8]) -> (r: Self)
        ensures
            r.model() == spec_mbta_path(data@),
            r.wf(),
    {
        let latlon = geo::parse_latlon_file(data);
        let mut lines = geo::project_and_crop(
            &latlon,
            MBTA_CENTER_LAT_UDEG,
            MBTA_CENTER_LON_UDEG,
            MBTA_COS_LAT_PPM,
            MBTA_SIDE_MM,
        );
        let merged = geo::merge_connected_lines(lines, MBTA_TOL_MM);
        let mut ordered = geo::greedy_order_lines(merged);
        geo::normalize(&mut ordered, MBTA_SIDE_MM);
        let mut path = geo::polylines_to_path(&ordered, 500, 100, false);
        path.push(Point { x: 128, y: 128, color: (0, 0, 0), delay: 1 });
        Mbta { path }
    }

    /// The cached path, every frame.
    pub fn produce(&self) -> (r: Path)
        ensures
            r@ == self.model(),
    {
        clone_path(&self.path)
    }
}

impl VectorApp for Mbta {
    fn get_path(&mut self, frame: u64) -> Path {
        self.produce()
    }

    fn handle_controls(&mut self, controls: Controls) {
    }
}

/// An asteroid's size class.
#[derive(Clone, Copy, Debug, PartialEq, Eq, Structural)]
pub enum AsteroidSize {
    Large,
    Medium,
    Small,
}

impl AsteroidSize {
    /// The collision radius, in millionths of the field.
    pub fn radius_micro(self) -> (r: u32)
        ensures
            r as int == spec_radius(self),
            self is Large ==> r == 60000,
            self is Medium ==> r == 40000,
            self is Small ==> r == 25000,
    {
        match self {
            AsteroidSize::Large => 60000,
            AsteroidSize::Medium => 40000,
            AsteroidSize::Small => 25000,
        }
    }

    /// The size a hit asteroid breaks into, until the smallest vanishes.
    pub fn fragments(self) -> (r: Option<AsteroidSize>)
        ensures
            r == spec_fragments(self),
            self is Large ==> r == Some(AsteroidSize::Medium),
            self is Medium ==> r == Some(AsteroidSize::Small),
            self is Small ==> r is None,
    {
        match self {
            AsteroidSize::Large => Some(AsteroidSize::Medium),
            AsteroidSize::Medium => Some(AsteroidSize::Small),
            AsteroidSize::Small => None,
        }
    }
}

/// Split epoch seconds into the UTC time of day.
pub fn utc_hms(secs: u64) -> (r: (u8, u8, u8))
    ensures
        r.0 == (secs as int / 3600) % 24,
        r.1 == (secs as int / 60) % 60,
        r.2 == secs as int % 60,
{
    let h = ((secs / 3600) % 24) as u8;
    let m = ((secs / 60) % 60) as u8;
    let s = (secs % 60) as u8;
    proof {
        vstd::arithmetic::div_mod::lemma_mod_division_less_than_divisor(secs as int / 3600, 24);
        vstd::arithmetic::div_mod::lemma_mod_division_less_than_divisor(secs as int / 60, 60);
        vstd::arithmetic::div_mod::lemma_mod_division_less_than_divisor(secs as int, 60);
    }
    (h, m, s)
}

/// The eight bytes the clock face shows: hours, minutes and seconds as
/// digit pairs separated by spaces.
pub open spec fn clock_text(secs: int) -> Seq<u8> {
    let h = (secs / 3600) % 24;
    let m = (secs / 60) % 60;
    let s = secs % 60;
    seq![
        (48 + h / 10) as u8,
        (48 + h % 10) as u8,
        32u8,
        (48 + m / 10) as u8,
        (48 + m % 10) as u8,
        32u8,
        (48 + s / 10) as u8,
        (48 + s % 10) as u8,
    ]
}

/// One channel of the slowly cycling display color: a sine wave around
/// mid brightness, phase-shifted per channel.
pub open spec fn wave_channel(frame: int, phase: int) -> u8 {
    (128 + crate::numeric::div_to_zero(
        127 * crate::numeric::spec_sin_mrad((frame % 6284) * 100 + phase),
        1000,
    )) as u8
}

/// The cycling display color for a frame.
pub open spec fn clock_color(frame: int) -> (u8, u8, u8) {
    (wave_channel(frame, 0), wave_channel(frame, 2094), wave_channel(frame, 4189))
}

/// One channel of the cycling color.
fn wave_channel_exec(frame: u64, phase: u64) -> (r: u8)
    requires
        phase <= 4189,
    ensures
        r == wave_channel(frame as int, phase as int),
{
    let angle: u64 = (frame % 6284) * 100 + phase;
    let s = crate::numeric::sin_mrad(angle);
    proof {
        vstd::arithmetic::div_mod::lemma_mod_division_less_than_divisor(frame as int, 6284);
        assert(-127000 <= 127 * s <= 127000) by (nonlinear_arith)
            requires -1000 <= s <= 1000i64;
    }
    let t = crate::numeric::div_to_zero_i64(127 * s, 1000);
    proof {
        assert(-127 <= t <= 127) by {
            if 127 * s >= 0 {
                vstd::arithmetic::div_mod::lemma_div_is_ordered(127 * s, 127000, 1000);
                assert(127000int / 1000 == 127);
            } else {
                vstd::arithmetic::div_mod::lemma_div_is_ordered(-(127 * s), 127000, 1000);
                assert(127000int / 1000 == 127);
            }
        }
    }
    (128 + t) as u8
}

/// The full clock face for one moment and frame: the time text laid out
/// and timed, the two separator dots blinked, and the beam parked dark.
pub open spec fn spec_clock_path(
    fm: crate::font::FontModel,
    cm: Seq<u16>,
    now: int,
    frame: int,
) -> Seq<Point> {
    let color = clock_color(frame);
    textpath::spec_synthesize(
        crate::font::spec_render(fm, cm, clock_text(now)),
        1500,
        1500,
        6,
        96,
        color,
    ) + seq![
        Point { x: 78u8, y: 96u8, color: (0u8, 0u8, 0u8), delay: 400u16 },
        Point { x: 78u8, y: 96u8, color: color, delay: 400u16 },
        Point { x: 162u8, y: 96u8, color: (0u8, 0u8, 0u8), delay: 400u16 },
        Point { x: 162u8, y: 96u8, color: color, delay: 400u16 },
        Point { x: 192u8, y: 96u8, color: (0u8, 0u8, 0u8), delay: 0u16 },
    ]
}

/// Lay the clock face out for a given moment.
pub fn clock_path(
    renderer: &HersheyRenderer,
    mapping: &FontMapping,
    now: u64,
    frame: u64,
) -> (r: Path)
    requires
        renderer.wf(),
        mapping.wf(),
    ensures
        r@ == spec_clock_path(renderer.model(), mapping.model(), now as int, frame as int),
{
    let (h, m, s) = utc_hms(now);
    let mut text: Vec<u8> = Vec::new();
    text.push(48 + h / 10);
    text.push(48 + h % 10);
    text.push(32);
    text.push(48 + m / 10);
    text.push(48 + m % 10);
    text.push(32);
    text.push(48 + s / 10);
    text.push(48 + s % 10);
    proof {
        assert(text@ =~= clock_text(now as int));
    }
    let color = (
        wave_channel_exec(frame, 0),
        wave_channel_exec(frame, 2094),
        wave_channel_exec(frame, 4189),
    );
    let mut path = textpath::text_to_path(
        renderer,
        text.as_slice(),
        6,
        96,
        1500,
        1500,
        color,
        mapping,
    );
    let ghost base = path@;
    path.push(Point { x: 78, y: 96, color: (0, 0, 0), delay: 400 });
    path.push(Point { x: 78, y: 96, color, delay: 400 });
    path.push(Point { x: 162, y: 96, color: (0, 0, 0), delay: 400 });
    path.push(Point { x: 162, y: 96, color, delay: 400 });
    path.push(Point { x: 192, y: 96, color: (0, 0, 0), delay: 0 });
    proof {
        assert(path@ =~= spec_clock_path(
            renderer.model(),
            mapping.model(),
            now as int,
            frame as int,
        ));
    }
    path
}

/// A wall clock: the time of day rendered fresh every frame in a slowly
/// cycling color.
pub struct Clock<T: TimeSource> {
    renderer: HersheyRenderer,
    mapping: FontMapping,
    time_source: T,
}

impl<T: TimeSource> Clock<T> {
    /// The font is loaded and the mapping complete.
    #[verifier::type_invariant]
    pub closed spec fn wf(&self) -> bool {
        self.renderer.wf() && self.mapping.wf()
    }

    /// The loaded font's picture.
    pub closed spec fn font_model(&self) -> crate::font::FontModel {
        self.renderer.model()
    }

    /// The mapping's picture.
    pub closed spec fn mapping_model(&self) -> Seq<u16> {
        self.mapping.model()
    }

    /// A clock over the given time source, with its font.
    pub fn new(time_source: T, renderer: HersheyRenderer, mapping: FontMapping) -> (r: Self)
        requires
            renderer.wf(),
            mapping.wf(),
        ensures
            r.wf(),
            r.font_model() == renderer.model(),
            r.mapping_model() == mapping.model(),
    {
        Clock { renderer, mapping, time_source }
    }

    /// The face for the current moment. The time source decides the
    /// moment; the face for any moment is the one `clock_path` lays out.
    pub fn produce(&self, frame: u64) -> (r: Path)
        ensures
            exists|now: int|
                r@ == spec_clock_path(self.font_model(), self.mapping_model(), now, frame as int),
    {
        proof {
            use_type_invariant(self);
        }
        let now = self.time_source.now();
        let r = clock_path(&self.renderer, &self.mapping, now, frame);
        proof {
            assert(r@ == spec_clock_path(
                self.font_model(),
                self.mapping_model(),
                now as int,
                frame as int,
            ));
        }
        r
    }
}

impl<T: TimeSource> VectorApp for Clock<T> {
    fn get_path(&mut self, frame: u64) -> Path {
        self.produce(frame)
    }

    fn handle_controls(&mut self, controls: Controls) {
    }
}

/// A planar vector in millionths of the unit square, the field the
/// asteroids demo plays on.
#[derive(Clone, Copy, Debug, PartialEq, Eq, Structural)]
pub struct Vec2 {
    pub x: i64,
    pub y: i64,
}

/// A coordinate within the unit field.
pub open spec fn micro_in_field(v: i64) -> bool {
    0 <= v <= 1000000
}

/// A per-frame velocity component within the demo's speed budget.
pub open spec fn micro_vel_ok(v: i64) -> bool {
    -100000 <= v <= 100000
}

/// Wrap a coordinate that left the unit field by one step back onto it.
pub open spec fn spec_wrap(v: int) -> int {
    if v < 0 {
        v + 1000000
    } else if v > 1000000 {
        v - 1000000
    } else {
        v
    }
}

/// Wrap a coordinate back onto the unit field.
fn wrap_micro(v: i64) -> (r: i64)
    requires
        -100000 <= v <= 1100000,
    ensures
        r == spec_wrap(v as int),
        micro_in_field(r),
{
    if v < 0 {
        v + 1000000
    } else if v > 1000000 {
        v - 1000000
    } else {
        v
    }
}

/// Map a field coordinate onto the DAC range, clamping at the edges.
pub open spec fn micro_dac(v: int) -> u8 {
    if v < 0 {
        0u8
    } else if v > 1000000 {
        255u8
    } else {
        (v * 255 / 1000000) as u8
    }
}

/// Map a field coordinate onto the DAC range.
fn micro_dac_exec(v: i64) -> (r: u8)
    requires
        -10000000 <= v <= 10000000,
    ensures
        r == micro_dac(v as int),
{
    if v < 0 {
        0
    } else if v > 1000000 {
        255
    } else {
        proof {
            vstd::arithmetic::div_mod::lemma_div_is_ordered(v * 255, 255000000, 1000000);
            vstd::arithmetic::div_mod::lemma_div_pos_is_pos(v * 255, 1000000);
            assert(255000000int / 1000000 == 255);
        }
        ((v * 255) / 1000000) as u8
    }
}

/// The squared field distance between two positions.
pub open spec fn micro_d2(a: Vec2, b: Vec2) -> int {
    (a.x - b.x) * (a.x - b.x) + (a.y - b.y) * (a.y - b.y)
}

/// Whether two field positions are within the given radius.
fn micro_hit(a: Vec2, b: Vec2, radius: u32) -> (r: bool)
    requires
        micro_in_field(a.x) && micro_in_field(a.y),
        micro_in_field(b.x) && micro_in_field(b.y),
        radius <= 100000,
    ensures
        r <==> micro_d2(a, b) < radius * radius,
{
    let dx: i64 = a.x - b.x;
    let dy: i64 = a.y - b.y;
    proof {
        assert(0 <= dx * dx <= 1000000000000int && 0 <= dy * dy <= 1000000000000int)
            by (nonlinear_arith)
            requires -1000000 <= dx <= 1000000i64, -1000000 <= dy <= 1000000i64;
        assert((radius as int) * (radius as int) <= 10000000000int) by (nonlinear_arith)
            requires radius <= 100000u32;
    }
    dx * dx + dy * dy < (radius as i64) * (radius as i64)
}

/// The demo's ship: its position and its facing, in milliradians.
pub struct Ship {
    pub pos: Vec2,
    pub rot_mrad: u64,
}

/// A bullet in flight, with the frames it has left to live.
pub struct Bullet {
    pub pos: Vec2,
    pub vel: Vec2,
    pub ttl: u16,
}

/// A drifting rock.
pub struct Asteroid {
    pub pos: Vec2,
    pub vel: Vec2,
    pub size: AsteroidSize,
}

/// The asteroids demo: continuous ship, rock and bullet kinematics in
/// fixed-point field coordinates, advanced once per frame.
pub struct Asteroids {
    ship: Ship,
    asteroids: Vec<Asteroid>,
    bullets: Vec<Bullet>,
}

/// The ship after one frame: position kept, facing advanced two
/// milliradians around the circle.
pub open spec fn spec_step_ship(ship: Ship) -> Ship {
    Ship { pos: ship.pos, rot_mrad: ((ship.rot_mrad + 2) % 6284) as u64 }
}

/// A position advanced by a velocity and wrapped onto the field.
pub open spec fn spec_wrap_vec(p: Vec2, v: Vec2) -> Vec2 {
    Vec2 { x: spec_wrap(p.x + v.x) as i64, y: spec_wrap(p.y + v.y) as i64 }
}

/// Every rock drifted one frame.
pub open spec fn spec_move_asteroids(s: Seq<Asteroid>) -> Seq<Asteroid> {
    s.map_values(
        |a: Asteroid| Asteroid { pos: spec_wrap_vec(a.pos, a.vel), vel: a.vel, size: a.size },
    )
}

/// A fresh bullet fired from the ship along its facing, when none flies.
pub open spec fn spec_fire(ship: Ship, bullets: Seq<Bullet>) -> Seq<Bullet> {
    if bullets.len() == 0 {
        bullets.push(
            Bullet {
                pos: ship.pos,
                vel: Vec2 {
                    x: (crate::numeric::spec_sin_mrad(ship.rot_mrad as int) * 10) as i64,
                    y: (crate::numeric::spec_sin_mrad(ship.rot_mrad as int + 1571) * 10) as i64,
                },
                ttl: 400,
            },
        )
    } else {
        bullets
    }
}

/// Bullets advanced one frame, from `j` on: each moves and wraps and
/// loses a frame of life, and expires when none is left.
pub open spec fn move_bullets_acc(s: Seq<Bullet>, j: int, acc: Seq<Bullet>) -> Seq<Bullet>
    decreases s.len() - j,
{
    if j < 0 || j >= s.len() {
        acc
    } else {
        let b = s[j];
        if b.ttl > 1 {
            move_bullets_acc(
                s,
                j + 1,
                acc.push(
                    Bullet {
                        pos: spec_wrap_vec(b.pos, b.vel),
                        vel: b.vel,
                        ttl: (b.ttl - 1) as u16,
                    },
                ),
            )
        } else {
            move_bullets_acc(s, j + 1, acc)
        }
    }
}

/// The collision radius of a size class, in millionths of the field.
pub open spec fn spec_radius(s: AsteroidSize) -> int {
    match s {
        AsteroidSize::Large => 60000,
        AsteroidSize::Medium => 40000,
        AsteroidSize::Small => 25000,
    }
}

/// The size a hit rock breaks into, until the smallest vanishes.
pub open spec fn spec_fragments(s: AsteroidSize) -> Option<AsteroidSize> {
    match s {
        AsteroidSize::Large => Option::Some(AsteroidSize::Medium),
        AsteroidSize::Medium => Option::Some(AsteroidSize::Small),
        AsteroidSize::Small => Option::None,
    }
}

/// The first bullet from `j` on within a rock's radius, or the length.
pub open spec fn spec_first_hit(apos: Vec2, radius: int, bullets: Seq<Bullet>, j: int) -> int
    decreases bullets.len() - j,
{
    if j < 0 || j >= bullets.len() {
        bullets.len() as int
    } else if micro_d2(apos, bullets[j].pos) < radius * radius {
        j
    } else {
        spec_first_hit(apos, radius, bullets, j + 1)
    }
}

/// A fragment's fixed velocity: a thousandth of the field per frame
/// along one of two fixed headings.
pub open spec fn spec_frag_vel(k: int) -> Vec2 {
    if k == 0 {
        Vec2 {
            x: crate::numeric::spec_sin_mrad(1571) as i64,
            y: crate::numeric::spec_sin_mrad(0) as i64,
        }
    } else {
        Vec2 {
            x: crate::numeric::spec_sin_mrad(3271) as i64,
            y: crate::numeric::spec_sin_mrad(1700) as i64,
        }
    }
}

/// Collisions, rock by rock from `i`: the first bullet within a rock's
/// radius is spent and the rock breaks into two fragments of the next
/// smaller size (or vanishes); surviving rocks are kept, and fragments
/// join the field after them.
pub open spec fn spec_collide(
    asteroids: Seq<Asteroid>,
    i: int,
    bullets: Seq<Bullet>,
    kept: Seq<Asteroid>,
    spawned: Seq<Asteroid>,
) -> (Seq<Asteroid>, Seq<Bullet>)
    decreases asteroids.len() - i,
{
    if i < 0 || i >= asteroids.len() {
        (kept + spawned, bullets)
    } else {
        let a = asteroids[i];
        let h = spec_first_hit(a.pos, spec_radius(a.size), bullets, 0);
        if 0 <= h < bullets.len() {
            let sp = match spec_fragments(a.size) {
                Option::Some(next) => spawned.push(
                    Asteroid { pos: a.pos, vel: spec_frag_vel(0), size: next },
                ).push(Asteroid { pos: a.pos, vel: spec_frag_vel(1), size: next }),
                Option::None => spawned,
            };
            spec_collide(asteroids, i + 1, bullets.remove(h), kept, sp)
        } else {
            spec_collide(asteroids, i + 1, bullets, kept.push(a), spawned)
        }
    }
}

/// One whole simulation frame: the ship turns, rocks drift, a bullet is
/// fired when none flies, bullets fly and age, and collisions break
/// rocks.
pub open spec fn spec_asteroids_step(
    ship: Ship,
    asteroids: Seq<Asteroid>,
    bullets: Seq<Bullet>,
) -> (Ship, Seq<Asteroid>, Seq<Bullet>) {
    let ship2 = spec_step_ship(ship);
    let moved = spec_move_asteroids(asteroids);
    let armed = spec_fire(ship2, bullets);
    let flying = move_bullets_acc(armed, 0, Seq::empty());
    let st = spec_collide(moved, 0, flying, Seq::empty(), Seq::empty());
    (ship2, st.0, st.1)
}

/// The ship's triangle: a blanked move to the nose, both wings, and
/// back to the nose, bright.
pub open spec fn spec_ship_points(ship: Ship) -> Seq<Point> {
    let rot = ship.rot_mrad as int;
    let fx = crate::numeric::spec_sin_mrad(rot);
    let fy = crate::numeric::spec_sin_mrad(rot + 1571);
    let lx = crate::numeric::spec_sin_mrad(rot + 2500);
    let ly = crate::numeric::spec_sin_mrad(rot + 2500 + 1571);
    let rx = crate::numeric::spec_sin_mrad(rot + 3784);
    let ry = crate::numeric::spec_sin_mrad(rot + 3784 + 1571);
    seq![
        Point {
            x: micro_dac(ship.pos.x + fx * 30),
            y: micro_dac(ship.pos.y + fy * 30),
            color: (0u8, 0u8, 0u8),
            delay: 1000u16,
        },
        Point {
            x: micro_dac(ship.pos.x + lx * 20),
            y: micro_dac(ship.pos.y + ly * 20),
            color: (255u8, 255u8, 255u8),
            delay: 500u16,
        },
        Point {
            x: micro_dac(ship.pos.x + rx * 20),
            y: micro_dac(ship.pos.y + ry * 20),
            color: (255u8, 255u8, 255u8),
            delay: 500u16,
        },
        Point {
            x: micro_dac(ship.pos.x + fx * 30),
            y: micro_dac(ship.pos.y + fy * 30),
            color: (255u8, 255u8, 255u8),
            delay: 500u16,
        },
    ]
}

/// One rock's circle: a blanked move to its rim, then twenty-four gray
/// segments around it.
pub open spec fn spec_circle_points(center: Vec2, radius: int) -> Seq<Point> {
    Seq::new(
        25,
        |seg: int| Point {
            x: micro_dac(
                center.x + crate::numeric::div_to_zero(
                    radius * crate::numeric::spec_sin_mrad(seg * 262 + 1571),
                    1000,
                ),
            ),
            y: micro_dac(
                center.y + crate::numeric::div_to_zero(
                    radius * crate::numeric::spec_sin_mrad(seg * 262),
                    1000,
                ),
            ),
            color: if seg == 0 {
                (0u8, 0u8, 0u8)
            } else {
                (128u8, 128u8, 128u8)
            },
            delay: if seg == 0 {
                1000u16
            } else {
                100u16
            },
        },
    )
}

/// Every rock's circle, in order.
pub open spec fn circles_acc(asteroids: Seq<Asteroid>, i: int, acc: Seq<Point>) -> Seq<Point>
    decreases asteroids.len() - i,
{
    if i < 0 || i >= asteroids.len() {
        acc
    } else {
        circles_acc(
            asteroids,
            i + 1,
            acc + spec_circle_points(asteroids[i].pos, spec_radius(asteroids[i].size)),
        )
    }
}

/// One bullet: a blanked move, a bright flash, and a short bright trail
/// along its velocity.
pub open spec fn spec_bullet_points(b: Bullet) -> Seq<Point> {
    seq![
        Point {
            x: micro_dac(b.pos.x as int),
            y: micro_dac(b.pos.y as int),
            color: (0u8, 0u8, 0u8),
            delay: 1000u16,
        },
        Point {
            x: micro_dac(b.pos.x as int),
            y: micro_dac(b.pos.y as int),
            color: (255u8, 0u8, 0u8),
            delay: 100u16,
        },
        Point {
            x: micro_dac(b.pos.x + b.vel.x),
            y: micro_dac(b.pos.y + b.vel.y),
            color: (255u8, 0u8, 0u8),
            delay: 200u16,
        },
    ]
}

/// Every bullet's points, in order.
pub open spec fn bullets_acc(bullets: Seq<Bullet>, j: int, acc: Seq<Point>) -> Seq<Point>
    decreases bullets.len() - j,
{
    if j < 0 || j >= bullets.len() {
        acc
    } else {
        bullets_acc(bullets, j + 1, acc + spec_bullet_points(bullets[j]))
    }
}

/// The whole scene: the ship, the rocks, the bullets, and the beam
/// parked dark at the center.
pub open spec fn spec_asteroids_render(
    ship: Ship,
    asteroids: Seq<Asteroid>,
    bullets: Seq<Bullet>,
) -> Seq<Point> {
    bullets_acc(bullets, 0, circles_acc(asteroids, 0, spec_ship_points(ship))).push(
        Point { x: 128u8, y: 128u8, color: (0u8, 0u8, 0u8), delay: 0u16 },
    )
}

/// The kinematic state stays on the field and under the speed budget.
pub open spec fn asteroids_wf(
    ship: Ship,
    asteroids: Seq<Asteroid>,
    bullets: Seq<Bullet>,
) -> bool {
    &&& micro_in_field(ship.pos.x) && micro_in_field(ship.pos.y)
    &&& ship.rot_mrad < 6284
    &&& forall|i: int|
        0 <= i < asteroids.len() ==> micro_in_field((#[trigger] asteroids[i]).pos.x)
            && micro_in_field(asteroids[i].pos.y) && micro_vel_ok(asteroids[i].vel.x)
            && micro_vel_ok(asteroids[i].vel.y)
    &&& forall|i: int|
        0 <= i < bullets.len() ==> micro_in_field((#[trigger] bullets[i]).pos.x)
            && micro_in_field(bullets[i].pos.y) && micro_vel_ok(bullets[i].vel.x) && micro_vel_ok(
            bullets[i].vel.y,
        )
}

impl Asteroids {
    /// The state invariant.
    pub closed spec fn wf(&self) -> bool {
        asteroids_wf(self.ship, self.asteroids@, self.bullets@)
    }

    /// The ship's state.
    pub closed spec fn sship(&self) -> Ship {
        self.ship
    }

    /// The rocks adrift.
    pub closed spec fn sasteroids(&self) -> Seq<Asteroid> {
        self.asteroids@
    }

    /// The bullets in flight.
    pub closed spec fn sbullets(&self) -> Seq<Bullet> {
        self.bullets@
    }

    /// The opening scene: the ship centered, two rocks adrift.
    pub fn new() -> (r: Self)
        ensures
            r.wf(),
    {
        let mut asteroids: Vec<Asteroid> = Vec::new();
        asteroids.push(
            Asteroid {
                pos: Vec2 { x: 200000, y: 300000 },
                vel: Vec2 { x: 700, y: 300 },
                size: AsteroidSize::Large,
            },
        );
        asteroids.push(
            Asteroid {
                pos: Vec2 { x: 800000, y: 600000 },
                vel: Vec2 { x: -400, y: 600 },
                size: AsteroidSize::Medium,
            },
        );
        Asteroids {
            ship: Ship { pos: Vec2 { x: 500000, y: 500000 }, rot_mrad: 0 },
            asteroids,
            bullets: Vec::new(),
        }
    }

    /// Advance the simulation one frame: the ship turns slowly, rocks
    /// and bullets drift and wrap, a bullet is fired when none flies,
    /// spent bullets expire, and a hit rock breaks into two fragments of
    /// the next smaller size or vanishes.
    /// Advance the simulation one frame: the ship turns slowly, rocks
    /// and bullets drift and wrap, a bullet is fired when none flies,
    /// spent bullets expire, and a hit rock breaks into two fragments of
    /// the next smaller size or vanishes -- exactly the transition
    /// `spec_asteroids_step` lays down.
    #[verifier::loop_isolation(false)]
    #[verifier::rlimit(80)]
    pub fn step(&mut self)
        requires
            old(self).wf(),
        ensures
            final(self).wf(),
            final(self).sship() == spec_asteroids_step(
                old(self).sship(),
                old(self).sasteroids(),
                old(self).sbullets(),
            ).0,
            final(self).sasteroids() == spec_asteroids_step(
                old(self).sship(),
                old(self).sasteroids(),
                old(self).sbullets(),
            ).1,
            final(self).sbullets() == spec_asteroids_step(
                old(self).sship(),
                old(self).sasteroids(),
                old(self).sbullets(),
            ).2,
    {
        let ghost ship0 = self.ship;
        let ghost ast0 = self.asteroids@;
        let ghost bul0 = self.bullets@;
        self.ship.rot_mrad = (self.ship.rot_mrad + 2) % 6284;
        proof {
            assert(self.ship == spec_step_ship(ship0));
        }

        let ghost moved_s = spec_move_asteroids(ast0);
        let mut moved: Vec<Asteroid> = Vec::new();
        let mut i: usize = 0;
        proof {
            assert(moved@ =~= moved_s.take(0));
        }
        while i < self.asteroids.len()
            invariant
                0 <= i <= self.asteroids@.len(),
                asteroids_wf(self.ship, self.asteroids@, self.bullets@),
                moved@ =~= moved_s.take(i as int),
                forall|k: int|
                    0 <= k < moved@.len() ==> micro_in_field((#[trigger] moved@[k]).pos.x)
                        && micro_in_field(moved@[k].pos.y) && micro_vel_ok(moved@[k].vel.x)
                        && micro_vel_ok(moved@[k].vel.y),
            decreases self.asteroids@.len() - i,
        {
            let a = &self.asteroids[i];
            let pos = Vec2 { x: wrap_micro(a.pos.x + a.vel.x), y: wrap_micro(a.pos.y + a.vel.y) };
            proof {
                assert(moved_s[i as int] == Asteroid {
                    pos: spec_wrap_vec(ast0[i as int].pos, ast0[i as int].vel),
                    vel: ast0[i as int].vel,
                    size: ast0[i as int].size,
                });
                assert(moved_s.take(i + 1) =~= moved_s.take(i as int).push(moved_s[i as int]));
            }
            moved.push(Asteroid { pos, vel: a.vel, size: a.size });
            i = i + 1;
        }
        proof {
            assert(moved@ =~= moved_s);
        }
        self.asteroids = moved;

        if self.bullets.len() == 0 {
            let fx = crate::numeric::sin_mrad(self.ship.rot_mrad);
            let fy = crate::numeric::cos_mrad(self.ship.rot_mrad);
            self.bullets.push(
                Bullet {
                    pos: self.ship.pos,
                    vel: Vec2 { x: fx * 10, y: fy * 10 },
                    ttl: 400,
                },
            );
            proof {
                assert(self.bullets@ =~= spec_fire(spec_step_ship(ship0), bul0));
            }
        }
        let ghost armed = spec_fire(spec_step_ship(ship0), bul0);
        proof {
            assert(self.bullets@ == armed);
        }

        let ghost fly0 = move_bullets_acc(armed, 0, Seq::empty());
        let mut flying: Vec<Bullet> = Vec::new();
        let mut j: usize = 0;
        proof {
            assert(flying@ =~= Seq::<Bullet>::empty());
        }
        while j < self.bullets.len()
            invariant
                0 <= j <= self.bullets@.len(),
                self.bullets@ == armed,
                fly0 == move_bullets_acc(armed, j as int, flying@),
                forall|k: int|
                    0 <= k < self.bullets@.len() ==> micro_in_field(
                        (#[trigger] self.bullets@[k]).pos.x,
                    ) && micro_in_field(self.bullets@[k].pos.y) && micro_vel_ok(
                        self.bullets@[k].vel.x,
                    ) && micro_vel_ok(self.bullets@[k].vel.y),
                forall|k: int|
                    0 <= k < flying@.len() ==> micro_in_field((#[trigger] flying@[k]).pos.x)
                        && micro_in_field(flying@[k].pos.y) && micro_vel_ok(flying@[k].vel.x)
                        && micro_vel_ok(flying@[k].vel.y),
            decreases self.bullets@.len() - j,
        {
            let b = &self.bullets[j];
            let pos = Vec2 { x: wrap_micro(b.pos.x + b.vel.x), y: wrap_micro(b.pos.y + b.vel.y) };
            if b.ttl > 1 {
                flying.push(Bullet { pos, vel: b.vel, ttl: b.ttl - 1 });
            }
            j = j + 1;
        }
        self.bullets = flying;
        proof {
            assert(self.bullets@ == fly0);
        }

        // Collisions: a bullet that strikes a rock is spent, and the rock
        // breaks or vanishes.
        let mut kept: Vec<Asteroid> = Vec::new();
        let mut spawned: Vec<Asteroid> = Vec::new();
        let mut ai: usize = 0;
        proof {
            assert(kept@ =~= Seq::<Asteroid>::empty());
            assert(spawned@ =~= Seq::<Asteroid>::empty());
        }
        while ai < self.asteroids.len()
            invariant
                0 <= ai <= self.asteroids@.len(),
                self.ship == spec_step_ship(ship0),
                self.asteroids@ == moved_s,
                asteroids_wf(self.ship, self.asteroids@, self.bullets@),
                spec_collide(moved_s, 0, fly0, Seq::empty(), Seq::empty()) == spec_collide(
                    moved_s,
                    ai as int,
                    self.bullets@,
                    kept@,
                    spawned@,
                ),
                forall|k: int|
                    0 <= k < kept@.len() ==> micro_in_field((#[trigger] kept@[k]).pos.x)
                        && micro_in_field(kept@[k].pos.y) && micro_vel_ok(kept@[k].vel.x)
                        && micro_vel_ok(kept@[k].vel.y),
                forall|k: int|
                    0 <= k < spawned@.len() ==> micro_in_field((#[trigger] spawned@[k]).pos.x)
                        && micro_in_field(spawned@[k].pos.y) && micro_vel_ok(
                        (#[trigger] spawned@[k]).vel.x,
                    ) && micro_vel_ok(spawned@[k].vel.y),
            decreases self.asteroids@.len() - ai,
        {
            let apos = self.asteroids[ai].pos;
            let avel = self.asteroids[ai].vel;
            let asize = self.asteroids[ai].size;
            let radius = asize.radius_micro();
            let ghost bul_cur = self.bullets@;
            let ghost rr = spec_radius(asize);
            let mut hit = false;
            let ghost mut hpos: int = 0;
            let mut remaining: Vec<Bullet> = Vec::new();
            let mut bi: usize = 0;
            proof {
                assert(remaining@ =~= bul_cur.take(0));
            }
            while bi < self.bullets.len()
                invariant
                    0 <= bi <= self.bullets@.len(),
                    self.bullets@ == bul_cur,
                    micro_in_field(apos.x) && micro_in_field(apos.y),
                    radius <= 100000,
                    radius as int == rr,
                    !hit ==> remaining@ =~= bul_cur.take(bi as int) && spec_first_hit(
                        apos,
                        rr,
                        bul_cur,
                        0,
                    ) == spec_first_hit(apos, rr, bul_cur, bi as int),
                    hit ==> 0 <= hpos < bi && hpos == spec_first_hit(apos, rr, bul_cur, 0)
                        && remaining@ =~= bul_cur.subrange(0, hpos) + bul_cur.subrange(
                        hpos + 1,
                        bi as int,
                    ),
                    forall|k: int|
                        0 <= k < self.bullets@.len() ==> micro_in_field(
                            (#[trigger] self.bullets@[k]).pos.x,
                        ) && micro_in_field(self.bullets@[k].pos.y) && micro_vel_ok(
                            self.bullets@[k].vel.x,
                        ) && micro_vel_ok(self.bullets@[k].vel.y),
                    forall|k: int|
                        0 <= k < remaining@.len() ==> micro_in_field(
                            (#[trigger] remaining@[k]).pos.x,
                        ) && micro_in_field(remaining@[k].pos.y) && micro_vel_ok(
                            remaining@[k].vel.x,
                        ) && micro_vel_ok(remaining@[k].vel.y),
                decreases self.bullets@.len() - bi,
            {
                let b = &self.bullets[bi];
                if !hit && micro_hit(apos, b.pos, radius) {
                    hit = true;
                    proof {
                        hpos = bi as int;
                    }
                } else {
                    remaining.push(Bullet { pos: b.pos, vel: b.vel, ttl: b.ttl });
                }
                bi = bi + 1;
            }
            if hit {
                proof {
                    assert(remaining@ =~= bul_cur.remove(hpos));
                }
                self.bullets = remaining;
                match asize.fragments() {
                    Some(next) => {
                        // Two fragments on fixed headings, at a thousandth
                        // of the field per frame.
                        let c0 = crate::numeric::cos_mrad(0);
                        let s0 = crate::numeric::sin_mrad(0);
                        let c1 = crate::numeric::cos_mrad(1700);
                        let s1 = crate::numeric::sin_mrad(1700);
                        proof {
                            assert(Vec2 { x: c0, y: s0 } == spec_frag_vel(0));
                            assert(Vec2 { x: c1, y: s1 } == spec_frag_vel(1));
                        }
                        spawned.push(
                            Asteroid { pos: apos, vel: Vec2 { x: c0, y: s0 }, size: next },
                        );
                        spawned.push(
                            Asteroid { pos: apos, vel: Vec2 { x: c1, y: s1 }, size: next },
                        );
                    },
                    None => {},
                }
            } else {
                proof {
                    assert(spec_first_hit(apos, rr, bul_cur, bul_cur.len() as int)
                        == bul_cur.len());
                }
                kept.push(Asteroid { pos: apos, vel: avel, size: asize });
                proof {
                    assert(Asteroid { pos: apos, vel: avel, size: asize } == moved_s[ai as int]);
                }
            }
            ai = ai + 1;
        }
        let ghost kept0 = kept@;
        let mut si: usize = 0;
        while si < spawned.len()
            invariant
                0 <= si <= spawned@.len(),
                kept@ =~= kept0 + spawned@.take(si as int),
                forall|k: int|
                    0 <= k < spawned@.len() ==> micro_in_field((#[trigger] spawned@[k]).pos.x)
                        && micro_in_field(spawned@[k].pos.y) && micro_vel_ok(
                        (#[trigger] spawned@[k]).vel.x,
                    ) && micro_vel_ok(spawned@[k].vel.y),
                forall|k: int|
                    0 <= k < kept@.len() ==> micro_in_field((#[trigger] kept@[k]).pos.x)
                        && micro_in_field(kept@[k].pos.y) && micro_vel_ok(kept@[k].vel.x)
                        && micro_vel_ok(kept@[k].vel.y),
            decreases spawned@.len() - si,
        {
            let sp = &spawned[si];
            proof {
                assert((kept0 + spawned@.take(si as int)).push(spawned@[si as int]) =~= kept0
                    + spawned@.take(si + 1));
            }
            kept.push(Asteroid { pos: sp.pos, vel: sp.vel, size: sp.size });
            si = si + 1;
        }
        proof {
            assert(kept@ =~= kept0 + spawned@);
        }
        self.asteroids = kept;
        proof {
            let st = spec_collide(moved_s, 0, fly0, Seq::empty(), Seq::empty());
            assert(st.0 == self.asteroids@ && st.1 == self.bullets@);
        }
    }

    /// Draw the scene: the ship's triangle, each rock's circle, the
    /// bullets, and the beam parked dark at the center so the pause
    /// between frames leaves no bright spot -- exactly the picture
    /// `spec_asteroids_render` lays down.
    #[verifier::loop_isolation(false)]
    #[verifier::rlimit(80)]
    pub fn render(&self) -> (r: Path)
        requires
            self.wf(),
        ensures
            r@ == spec_asteroids_render(self.sship(), self.sasteroids(), self.sbullets()),
            r@.len() >= 1,
            r@.last() == (Point { x: 128u8, y: 128u8, color: (0u8, 0u8, 0u8), delay: 0u16 }),
    {
        let mut path: Path = Vec::new();
        // The ship: nose, both wings, and back to the nose.
        let fwd_x = crate::numeric::sin_mrad(self.ship.rot_mrad);
        let fwd_y = crate::numeric::cos_mrad(self.ship.rot_mrad);
        let left_x = crate::numeric::sin_mrad(self.ship.rot_mrad + 2500);
        let left_y = crate::numeric::cos_mrad(self.ship.rot_mrad + 2500);
        let right_x = crate::numeric::sin_mrad(self.ship.rot_mrad + 3784);
        let right_y = crate::numeric::cos_mrad(self.ship.rot_mrad + 3784);
        let nose = Vec2 { x: self.ship.pos.x + fwd_x * 30, y: self.ship.pos.y + fwd_y * 30 };
        let wing_l = Vec2 { x: self.ship.pos.x + left_x * 20, y: self.ship.pos.y + left_y * 20 };
        let wing_r = Vec2 { x: self.ship.pos.x + right_x * 20, y: self.ship.pos.y + right_y * 20 };
        path.push(
            Point {
                x: micro_dac_exec(nose.x),
                y: micro_dac_exec(nose.y),
                color: (0, 0, 0),
                delay: 1000,
            },
        );
        path.push(
            Point {
                x: micro_dac_exec(wing_l.x),
                y: micro_dac_exec(wing_l.y),
                color: (255, 255, 255),
                delay: 500,
            },
        );
        path.push(
            Point {
                x: micro_dac_exec(wing_r.x),
                y: micro_dac_exec(wing_r.y),
                color: (255, 255, 255),
                delay: 500,
            },
        );
        path.push(
            Point {
                x: micro_dac_exec(nose.x),
                y: micro_dac_exec(nose.y),
                color: (255, 255, 255),
                delay: 500,
            },
        );
        proof {
            assert(path@ =~= spec_ship_points(self.ship));
        }
        let ghost base_ship = spec_ship_points(self.ship);
        // Each rock: a blanked move, then its circle.
        let mut i: usize = 0;
        while i < self.asteroids.len()
            invariant
                0 <= i <= self.asteroids@.len(),
                circles_acc(self.asteroids@, 0, base_ship) == circles_acc(
                    self.asteroids@,
                    i as int,
                    path@,
                ),
            decreases self.asteroids@.len() - i,
        {
            let center = self.asteroids[i].pos;
            let radius = self.asteroids[i].size.radius_micro() as i64;
            let ghost circ = spec_circle_points(center, radius as int);
            let ghost pre = path@;
            let mut seg: u64 = 0;
            proof {
                assert(path@ =~= pre + circ.take(0));
            }
            while seg <= 24
                invariant
                    0 <= seg <= 25,
                    micro_in_field(center.x) && micro_in_field(center.y),
                    0 <= radius <= 100000,
                    radius as int == spec_radius(self.asteroids@[i as int].size),
                    center == self.asteroids@[i as int].pos,
                    i < self.asteroids@.len(),
                    circ == spec_circle_points(center, radius as int),
                    path@ =~= pre + circ.take(seg as int),
                decreases 25 - seg,
            {
                let a: u64 = seg * 262;
                let cx = crate::numeric::cos_mrad(a);
                let sx = crate::numeric::sin_mrad(a);
                proof {
                    assert(-100000000 <= radius * cx <= 100000000int) by (nonlinear_arith)
                        requires 0 <= radius <= 100000i64, -1000 <= cx <= 1000i64;
                    assert(-100000000 <= radius * sx <= 100000000int) by (nonlinear_arith)
                        requires 0 <= radius <= 100000i64, -1000 <= sx <= 1000i64;
                }
                let px = center.x + crate::numeric::div_to_zero_i64(radius * cx, 1000);
                let py = center.y + crate::numeric::div_to_zero_i64(radius * sx, 1000);
                proof {
                    assert(a as int == seg as int * 262);
                    assert(circ[seg as int] == Point {
                        x: micro_dac(px as int),
                        y: micro_dac(py as int),
                        color: if seg as int == 0 {
                            (0u8, 0u8, 0u8)
                        } else {
                            (128u8, 128u8, 128u8)
                        },
                        delay: if seg as int == 0 {
                            1000u16
                        } else {
                            100u16
                        },
                    });
                    assert(circ.take(seg as int + 1) =~= circ.take(seg as int).push(
                        circ[seg as int],
                    ));
                }
                path.push(
                    Point {
                        x: micro_dac_exec(px),
                        y: micro_dac_exec(py),
                        color: if seg == 0 {
                            (0, 0, 0)
                        } else {
                            (128, 128, 128)
                        },
                        delay: if seg == 0 {
                            1000
                        } else {
                            100
                        },
                    },
                );
                seg = seg + 1;
            }
            proof {
                assert(path@ =~= pre + circ);
            }
            i = i + 1;
        }
        let ghost base_circ = circles_acc(self.asteroids@, 0, base_ship);
        proof {
            assert(path@ == base_circ);
        }
        // Bullets: a blanked move and a short bright flash.
        let mut j: usize = 0;
        while j < self.bullets.len()
            invariant
                0 <= j <= self.bullets@.len(),
                bullets_acc(self.bullets@, 0, base_circ) == bullets_acc(
                    self.bullets@,
                    j as int,
                    path@,
                ),
            decreases self.bullets@.len() - j,
        {
            let b = &self.bullets[j];
            let ghost pre = path@;
            path.push(
                Point {
                    x: micro_dac_exec(b.pos.x),
                    y: micro_dac_exec(b.pos.y),
                    color: (0, 0, 0),
                    delay: 1000,
                },
            );
            path.push(
                Point {
                    x: micro_dac_exec(b.pos.x),
                    y: micro_dac_exec(b.pos.y),
                    color: (255, 0, 0),
                    delay: 100,
                },
            );
            path.push(
                Point {
                    x: micro_dac_exec(b.pos.x + b.vel.x),
                    y: micro_dac_exec(b.pos.y + b.vel.y),
                    color: (255, 0, 0),
                    delay: 200,
                },
            );
            proof {
                assert(path@ =~= pre + spec_bullet_points(self.bullets@[j as int]));
            }
            j = j + 1;
        }
        path.push(Point { x: 128, y: 128, color: (0, 0, 0), delay: 0 });
        proof {
            assert(path@ =~= spec_asteroids_render(self.ship, self.asteroids@, self.bullets@));
        }
        path
    }

    /// Advance one frame and draw it.
    pub fn produce(&mut self, frame: u64) -> (r: Path)
        requires
            old(self).wf(),
        ensures
            final(self).wf(),
            (final(self).sship(), final(self).sasteroids(), final(self).sbullets())
                == spec_asteroids_step(
                old(self).sship(),
                old(self).sasteroids(),
                old(self).sbullets(),
            ),
            r@ == spec_asteroids_render(
                final(self).sship(),
                final(self).sasteroids(),
                final(self).sbullets(),
            ),
            r@.len() >= 1,
            r@.last() == (Point { x: 128u8, y: 128u8, color: (0u8, 0u8, 0u8), delay: 0u16 }),
    {
        self.step();
        self.render()
    }

    /// Whether the state invariant holds, checked at run time.
    pub fn wf_check(&self) -> (r: bool)
        ensures
            r == self.wf(),
    {
        if !(self.ship.pos.x >= 0 && self.ship.pos.x <= 1000000 && self.ship.pos.y >= 0
            && self.ship.pos.y <= 1000000 && self.ship.rot_mrad < 6284) {
            return false;
        }
        let mut i: usize = 0;
        while i < self.asteroids.len()
            invariant
                0 <= i <= self.asteroids@.len(),
                forall|k: int|
                    0 <= k < i ==> micro_in_field((#[trigger] self.asteroids@[k]).pos.x)
                        && micro_in_field(self.asteroids@[k].pos.y) && micro_vel_ok(
                        self.asteroids@[k].vel.x,
                    ) && micro_vel_ok(self.asteroids@[k].vel.y),
            decreases self.asteroids@.len() - i,
        {
            let a = &self.asteroids[i];
            if !(a.pos.x >= 0 && a.pos.x <= 1000000 && a.pos.y >= 0 && a.pos.y <= 1000000
                && a.vel.x >= -100000 && a.vel.x <= 100000 && a.vel.y >= -100000 && a.vel.y
                <= 100000) {
                return false;
            }
            i = i + 1;
        }
        let mut j: usize = 0;
        while j < self.bullets.len()
            invariant
                0 <= j <= self.bullets@.len(),
                forall|k: int|
                    0 <= k < j ==> micro_in_field((#[trigger] self.bullets@[k]).pos.x)
                        && micro_in_field(self.bullets@[k].pos.y) && micro_vel_ok(
                        self.bullets@[k].vel.x,
                    ) && micro_vel_ok(self.bullets@[k].vel.y),
                forall|k: int|
                    0 <= k < self.asteroids@.len() ==> micro_in_field(
                        (#[trigger] self.asteroids@[k]).pos.x,
                    ) && micro_in_field(self.asteroids@[k].pos.y) && micro_vel_ok(
                        self.asteroids@[k].vel.x,
                    ) && micro_vel_ok(self.asteroids@[k].vel.y),
            decreases self.bullets@.len() - j,
        {
            let b = &self.bullets[j];
            if !(b.pos.x >= 0 && b.pos.x <= 1000000 && b.pos.y >= 0 && b.pos.y <= 1000000
                && b.vel.x >= -100000 && b.vel.x <= 100000 && b.vel.y >= -100000 && b.vel.y
                <= 100000) {
                return false;
            }
            j = j + 1;
        }
        true
    }
}

impl VectorApp for Asteroids {
    fn get_path(&mut self, frame: u64) -> Path {
        if self.wf_check() {
            self.produce(frame)
        } else {
            Vec::new()
        }
    }

    fn handle_controls(&mut self, controls: Controls) {
    }
}

/// A cube corner, in thousandths of a unit.
pub open spec fn cube_vert(i: int) -> (int, int, int) {
    if i == 0 {
        (-500, -500, -500)
    } else if i == 1 {
        (500, -500, -500)
    } else if i == 2 {
        (500, 500, -500)
    } else if i == 3 {
        (-500, 500, -500)
    } else if i == 4 {
        (-500, -500, 500)
    } else if i == 5 {
        (500, -500, 500)
    } else if i == 6 {
        (500, 500, 500)
    } else {
        (-500, 500, 500)
    }
}

/// The corner pair of each cube edge.
pub open spec fn cube_edge(e: int) -> (int, int) {
    if e == 0 {
        (0, 1)
    } else if e == 1 {
        (1, 2)
    } else if e == 2 {
        (2, 3)
    } else if e == 3 {
        (3, 0)
    } else if e == 4 {
        (4, 5)
    } else if e == 5 {
        (5, 6)
    } else if e == 6 {
        (6, 7)
    } else if e == 7 {
        (7, 4)
    } else if e == 8 {
        (0, 4)
    } else if e == 9 {
        (1, 5)
    } else if e == 10 {
        (2, 6)
    } else {
        (3, 7)
    }
}

/// The frame's rotation angles, in milliradians.
pub open spec fn cube_angle_x(frame: int) -> int {
    (frame % 6284) * 20
}

/// The frame's rotation angles, in milliradians.
pub open spec fn cube_angle_y(frame: int) -> int {
    (frame % 6284) * 30
}

/// A cube corner rotated about two axes and projected to the device
/// plane with a simple perspective divide, in fixed-point thousandths.
pub open spec fn cube_proj(frame: int, i: int) -> (u8, u8) {
    let v = cube_vert(i);
    let sx_ = crate::numeric::spec_sin_mrad(cube_angle_x(frame));
    let cx_ = crate::numeric::spec_sin_mrad(cube_angle_x(frame) + 1571);
    let sy_ = crate::numeric::spec_sin_mrad(cube_angle_y(frame));
    let cy_ = crate::numeric::spec_sin_mrad(cube_angle_y(frame) + 1571);
    let yr = crate::numeric::div_to_zero(v.1 * cx_ - v.2 * sx_, 1000);
    let zr = crate::numeric::div_to_zero(v.1 * sx_ + v.2 * cx_, 1000);
    let xr = crate::numeric::div_to_zero(v.0 * cy_ + zr * sy_, 1000);
    let zr2 = crate::numeric::div_to_zero(-v.0 * sy_ + zr * cy_, 1000);
    let px = crate::numeric::div_to_zero(xr * 2000, 2000 + zr2);
    let py = crate::numeric::div_to_zero(yr * 2000, 2000 + zr2);
    (cube_dac(px), cube_dac(py))
}

/// Map a perspective-projected coordinate onto the DAC range.
pub open spec fn cube_dac(v: int) -> u8 {
    let t = crate::numeric::div_to_zero(v * 127, 1000) + 128;
    if t < 0 {
        0u8
    } else if t > 255 {
        255u8
    } else {
        t as u8
    }
}

/// The points of one rotated cube edge: a blanked move to its first
/// corner, twenty-one interpolation steps, and a settle at the second.
pub open spec fn cube_edge_points(frame: int, e: int) -> Seq<Point> {
    let p0 = cube_proj(frame, cube_edge(e).0);
    let p1 = cube_proj(frame, cube_edge(e).1);
    seq![Point { x: p0.0, y: p0.1, color: (0u8, 0u8, 0u8), delay: 400u16 }] + Seq::new(
        21,
        |s: int| Point {
            x: (p0.0 + crate::numeric::div_to_zero((p1.0 - p0.0) * s, 20)) as u8,
            y: (p0.1 + crate::numeric::div_to_zero((p1.1 - p0.1) * s, 20)) as u8,
            color: CUBE_COLOR,
            delay: 50u16,
        },
    ) + seq![Point { x: p1.0, y: p1.1, color: CUBE_COLOR, delay: 100u16 }]
}

/// The rotating cube's edges for one frame, in order.
pub open spec fn cube_acc(frame: int, e: int, acc: Seq<Point>) -> Seq<Point>
    decreases 12 - e,
{
    if e < 0 || e >= 12 {
        acc
    } else {
        cube_acc(frame, e + 1, acc + cube_edge_points(frame, e))
    }
}

/// The color the cube is drawn with.
pub const CUBE_COLOR: (u8, u8, u8) = (255, 0, 0);

/// A rotating wireframe cube over a fixed text caption.
pub struct CubeDemo {
    static_points: Path,
}

impl CubeDemo {
    /// The caption path under the cube.
    pub closed spec fn static_model(&self) -> Seq<Point> {
        self.static_points@
    }

    /// Render the caption once.
    pub fn new(renderer: &HersheyRenderer, mapping: &FontMapping) -> (r: Self)
        requires
            renderer.wf(),
            mapping.wf(),
        ensures
            r.static_model() == textpath::spec_synthesize(
                crate::font::spec_render(renderer.model(), mapping.model(), cube_caption(0)),
                1000,
                1000,
                0,
                16,
                CUBE_COLOR,
            ) + textpath::spec_synthesize(
                crate::font::spec_render(renderer.model(), mapping.model(), cube_caption(1)),
                1000,
                1000,
                176,
                240,
                CUBE_COLOR,
            ),
    {
        let hello: Vec<u8> = vec![72, 101, 108, 108, 111];
        let world: Vec<u8> = vec![87, 111, 114, 108, 100];
        proof {
            assert(hello@ =~= cube_caption(0));
            assert(world@ =~= cube_caption(1));
        }
        let mut static_points = textpath::text_to_path(
            renderer,
            hello.as_slice(),
            0,
            16,
            1000,
            1000,
            CUBE_COLOR,
            mapping,
        );
        let mut p2 = textpath::text_to_path(
            renderer,
            world.as_slice(),
            176,
            240,
            1000,
            1000,
            CUBE_COLOR,
            mapping,
        );
        static_points.append(&mut p2);
        CubeDemo { static_points }
    }

    /// The cube for one frame, over the caption.
    pub fn produce(&self, frame: u64) -> (r: Path)
        ensures
            r@ == cube_acc(frame as int, 0, Seq::empty()) + self.static_model(),
    {
        let mut out: Path = Vec::new();
        let mut e: usize = 0;
        proof {
            assert(out@ =~= Seq::<Point>::empty());
        }
        while e < 12
            invariant
                0 <= e <= 12,
                cube_acc(frame as int, 0, Seq::empty()) == cube_acc(frame as int, e as int, out@),
            decreases 12 - e,
        {
            let (i0, i1) = cube_edge_exec(e);
            let p0 = cube_proj_exec(frame, i0);
            let p1 = cube_proj_exec(frame, i1);
            let ghost pts = cube_edge_points(frame as int, e as int);
            let ghost acc0 = out@;
            out.push(Point { x: p0.0, y: p0.1, color: (0, 0, 0), delay: 400 });
            let mut s: usize = 0;
            while s < 21
                invariant
                    0 <= s <= 21,
                    p0 == cube_proj(frame as int, cube_edge(e as int).0),
                    p1 == cube_proj(frame as int, cube_edge(e as int).1),
                    pts == cube_edge_points(frame as int, e as int),
                    out@ =~= acc0 + pts.take(1 + s as int),
                decreases 21 - s,
            {
                proof {
                    assert(-5100int <= (p1.0 - p0.0) * (s as int) <= 5100int) by (nonlinear_arith)
                        requires -255 <= p1.0 - p0.0 <= 255, 0 <= s as int <= 20;
                    assert(-5100int <= (p1.1 - p0.1) * (s as int) <= 5100int) by (nonlinear_arith)
                        requires -255 <= p1.1 - p0.1 <= 255, 0 <= s as int <= 20;
                }
                let ix = p0.0 as i64 + crate::numeric::div_to_zero_i64(
                    (p1.0 as i64 - p0.0 as i64) * s as i64,
                    20,
                );
                let iy = p0.1 as i64 + crate::numeric::div_to_zero_i64(
                    (p1.1 as i64 - p0.1 as i64) * s as i64,
                    20,
                );
                proof {
                    assert(pts[1 + s as int] == Point {
                        x: (p0.0 + crate::numeric::div_to_zero(
                            (p1.0 - p0.0) * (s as int),
                            20,
                        )) as u8,
                        y: (p0.1 + crate::numeric::div_to_zero(
                            (p1.1 - p0.1) * (s as int),
                            20,
                        )) as u8,
                        color: CUBE_COLOR,
                        delay: 50u16,
                    });
                    assert(pts.take(1 + s as int + 1) =~= pts.take(1 + s as int).push(
                        pts[1 + s as int],
                    ));
                }
                proof {
                    lemma_cube_interp_range(p0.0 as int, p1.0 as int, s as int);
                    lemma_cube_interp_range(p0.1 as int, p1.1 as int, s as int);
                }
                out.push(Point { x: ix as u8, y: iy as u8, color: CUBE_COLOR, delay: 50 });
                s = s + 1;
            }
            out.push(Point { x: p1.0, y: p1.1, color: CUBE_COLOR, delay: 100 });
            proof {
                assert(out@ =~= acc0 + pts);
            }
            e = e + 1;
        }
        let mut tail = clone_path(&self.static_points);
        let ghost dynamic = out@;
        out.append(&mut tail);
        proof {
            assert(out@ =~= dynamic + self.static_model());
        }
        out
    }
}

/// The caption rows under the cube.
pub open spec fn cube_caption(i: int) -> Seq<u8> {
    if i == 0 {
        seq![72u8, 101u8, 108u8, 108u8, 111u8]
    } else {
        seq![87u8, 111u8, 114u8, 108u8, 100u8]
    }
}

/// A linear interpolation between device coordinates stays on the
/// device range.
proof fn lemma_cube_interp_range(a: int, b: int, s: int)
    requires
        0 <= a <= 255,
        0 <= b <= 255,
        0 <= s <= 20,
    ensures
        0 <= a + crate::numeric::div_to_zero((b - a) * s, 20) <= 255,
{
    let d = (b - a) * s;
    if b >= a {
        assert(0 <= d <= (b - a) * 20) by (nonlinear_arith)
            requires d == (b - a) * s, 0 <= b - a, 0 <= s <= 20;
        vstd::arithmetic::div_mod::lemma_div_is_ordered(d, (b - a) * 20, 20);
        vstd::arithmetic::div_mod::lemma_div_by_multiple(b - a, 20);
        assert(d / 20 <= b - a);
        vstd::arithmetic::div_mod::lemma_div_pos_is_pos(d, 20);
        assert(crate::numeric::div_to_zero(d, 20) == d / 20);
    } else {
        assert(0 <= -d <= (a - b) * 20) by (nonlinear_arith)
            requires d == (b - a) * s, 0 <= a - b, 0 <= s <= 20;
        vstd::arithmetic::div_mod::lemma_div_is_ordered(-d, (a - b) * 20, 20);
        vstd::arithmetic::div_mod::lemma_div_by_multiple(a - b, 20);
        assert((-d) / 20 <= a - b);
        vstd::arithmetic::div_mod::lemma_div_pos_is_pos(-d, 20);
        assert(crate::numeric::div_to_zero(d, 20) == -((-d) / 20));
    }
}

/// The corner pair of one edge.
fn cube_edge_exec(e: usize) -> (r: (usize, usize))
    requires
        e < 12,
    ensures
        r.0 as int == cube_edge(e as int).0,
        r.1 as int == cube_edge(e as int).1,
        r.0 < 8 && r.1 < 8,
{
    if e == 0 {
        (0, 1)
    } else if e == 1 {
        (1, 2)
    } else if e == 2 {
        (2, 3)
    } else if e == 3 {
        (3, 0)
    } else if e == 4 {
        (4, 5)
    } else if e == 5 {
        (5, 6)
    } else if e == 6 {
        (6, 7)
    } else if e == 7 {
        (7, 4)
    } else if e == 8 {
        (0, 4)
    } else if e == 9 {
        (1, 5)
    } else if e == 10 {
        (2, 6)
    } else {
        (3, 7)
    }
}

/// One corner rotated and projected for a frame.
fn cube_proj_exec(frame: u64, i: usize) -> (r: (u8, u8))
    requires
        i < 8,
    ensures
        r == cube_proj(frame as int, i as int),
{
    let (vx, vy, vz): (i64, i64, i64) = if i == 0 {
        (-500, -500, -500)
    } else if i == 1 {
        (500, -500, -500)
    } else if i == 2 {
        (500, 500, -500)
    } else if i == 3 {
        (-500, 500, -500)
    } else if i == 4 {
        (-500, -500, 500)
    } else if i == 5 {
        (500, -500, 500)
    } else if i == 6 {
        (500, 500, 500)
    } else {
        (-500, 500, 500)
    };
    let ax: u64 = (frame % 6284) * 20;
    let ay: u64 = (frame % 6284) * 30;
    let sx_ = crate::numeric::sin_mrad(ax);
    let cx_ = crate::numeric::cos_mrad(ax);
    let sy_ = crate::numeric::sin_mrad(ay);
    let cy_ = crate::numeric::cos_mrad(ay);
    proof {
        vstd::arithmetic::div_mod::lemma_mod_division_less_than_divisor(frame as int, 6284);
        lemma_cube_rotation_bounds(vx as int, vy as int, vz as int, sx_ as int, cx_ as int);
    }
    let yr = crate::numeric::div_to_zero_i64(vy * cx_ - vz * sx_, 1000);
    let zr = crate::numeric::div_to_zero_i64(vy * sx_ + vz * cx_, 1000);
    proof {
        assert(1000 * yr <= 1000000int && -1000000int <= 1000 * yr) by {
            lemma_milli_bound(vy * cx_ - vz * sx_, yr as int);
        }
        assert(1000 * zr <= 1000000int && -1000000int <= 1000 * zr) by {
            lemma_milli_bound(vy * sx_ + vz * cx_, zr as int);
        }
        lemma_cube_second_bounds(vx as int, zr as int, sy_ as int, cy_ as int);
    }
    let xr = crate::numeric::div_to_zero_i64(vx * cy_ + zr * sy_, 1000);
    let zr2 = crate::numeric::div_to_zero_i64(-vx * sy_ + zr * cy_, 1000);
    proof {
        assert(1000 * xr <= 1500000int && -1500000int <= 1000 * xr) by {
            lemma_milli_bound(vx * cy_ + zr * sy_, xr as int);
        }
        assert(1000 * zr2 <= 1500000int && -1500000int <= 1000 * zr2) by {
            lemma_milli_bound(-vx * sy_ + zr * cy_, zr2 as int);
        }
        assert(-3000000int <= xr * 2000 <= 3000000int) by (nonlinear_arith)
            requires -1500 <= xr as int <= 1500;
        assert(-2000000int <= yr * 2000 <= 2000000int) by (nonlinear_arith)
            requires -1000 <= yr as int <= 1000;
    }
    let px = crate::numeric::div_to_zero_i64(xr * 2000, 2000 + zr2);
    let py = crate::numeric::div_to_zero_i64(yr * 2000, 2000 + zr2);
    proof {
        assert(-381000000int <= px * 127 <= 381000000int) by (nonlinear_arith)
            requires -3000000 <= px as int <= 3000000;
        assert(-381000000int <= py * 127 <= 381000000int) by (nonlinear_arith)
            requires -3000000 <= py as int <= 3000000;
    }
    let tx = crate::numeric::div_to_zero_i64(px * 127, 1000) + 128;
    let ty = crate::numeric::div_to_zero_i64(py * 127, 1000) + 128;
    let dx = crate::numeric::clamp_i64_to_u8(tx);
    let dy = crate::numeric::clamp_i64_to_u8(ty);
    (dx, dy)
}

/// A first-stage rotated coordinate stays within one unit.
proof fn lemma_cube_rotation_bounds(vx: int, vy: int, vz: int, s: int, c: int)
    requires
        -500 <= vx <= 500,
        -500 <= vy <= 500,
        -500 <= vz <= 500,
        -1000 <= s <= 1000,
        -1000 <= c <= 1000,
    ensures
        -1000000 <= vy * c - vz * s <= 1000000,
        -1000000 <= vy * s + vz * c <= 1000000,
{
    assert(-500000 <= vy * c <= 500000 && -500000 <= vz * s <= 500000 && -500000 <= vy * s
        <= 500000 && -500000 <= vz * c <= 500000) by (nonlinear_arith)
        requires
            -500 <= vy <= 500,
            -500 <= vz <= 500,
            -1000 <= s <= 1000,
            -1000 <= c <= 1000,
    ;
}

/// A second-stage rotated coordinate stays within range.
proof fn lemma_cube_second_bounds(vx: int, zr: int, s: int, c: int)
    requires
        -500 <= vx <= 500,
        -1000 <= zr <= 1000,
        -1000 <= s <= 1000,
        -1000 <= c <= 1000,
    ensures
        -1500000 <= vx * c + zr * s <= 1500000,
        -1500000 <= -vx * s + zr * c <= 1500000,
{
    assert(-500000 <= vx * c <= 500000 && -1000000 <= zr * s <= 1000000 && -500000 <= vx * s
        <= 500000 && -1000000 <= zr * c <= 1000000) by (nonlinear_arith)
        requires
            -500 <= vx <= 500,
            -1000 <= zr <= 1000,
            -1000 <= s <= 1000,
            -1000 <= c <= 1000,
    ;
    assert(-(vx * s) == (-vx) * s) by (nonlinear_arith);
}

/// Dividing by a thousand keeps a thousandth of the magnitude.
proof fn lemma_milli_bound(a: int, r: int)
    requires
        r == crate::numeric::div_to_zero(a, 1000),
    ensures
        a >= 0 ==> 0 <= 1000 * r <= a,
        a < 0 ==> a <= 1000 * r <= 0,
{
    if a >= 0 {
        vstd::arithmetic::div_mod::lemma_fundamental_div_mod(a, 1000);
        vstd::arithmetic::div_mod::lemma_mod_division_less_than_divisor(a, 1000);
        vstd::arithmetic::div_mod::lemma_div_pos_is_pos(a, 1000);
    } else {
        vstd::arithmetic::div_mod::lemma_fundamental_div_mod(-a, 1000);
        vstd::arithmetic::div_mod::lemma_mod_division_less_than_divisor(-a, 1000);
        vstd::arithmetic::div_mod::lemma_div_pos_is_pos(-a, 1000);
    }
}

impl VectorApp for CubeDemo {
    fn get_path(&mut self, frame: u64) -> Path {
        self.produce(frame)
    }

    fn handle_controls(&mut self, controls: Controls) {
    }
}

/// One of the scene apps the cycling combinator can own.
pub enum AppKind<T: TimeSource> {
    Align(Align),
    Alphabet(AlphabetDemo),
    Asteroids(Asteroids),
    Clock(Clock<T>),
    Cube(CubeDemo),
    Ilda(Ilda),
    Maps(Maps),
    Mbta(Mbta),
}

/// What one frame call to an app returns, and what it may do to the
/// app: every variant's path is the one its own contract fixes -- the
/// clock's for the moment its time source chose -- and only the
/// asteroids demo advances state (by exactly one simulation step).
pub open spec fn app_path_ok<T: TimeSource>(
    before: AppKind<T>,
    after: AppKind<T>,
    frame: int,
    r: Seq<Point>,
) -> bool {
    match before {
        AppKind::Align(a) => after == before && r == a.model(),
        AppKind::Alphabet(a) => after == before && r == a.model(),
        AppKind::Asteroids(a) => {
            if a.wf() {
                match after {
                    AppKind::Asteroids(a2) => (a2.sship(), a2.sasteroids(), a2.sbullets())
                        == spec_asteroids_step(a.sship(), a.sasteroids(), a.sbullets()) && r
                        == spec_asteroids_render(a2.sship(), a2.sasteroids(), a2.sbullets()),
                    _ => false,
                }
            } else {
                after == before && r == Seq::<Point>::empty()
            }
        },
        AppKind::Clock(c) => after == before && (exists|now: int|
            r == spec_clock_path(c.font_model(), c.mapping_model(), now, frame)),
        AppKind::Cube(c) => after == before && r == cube_acc(frame, 0, Seq::empty())
            + c.static_model(),
        AppKind::Ilda(a) => after == before && r == a.model(),
        AppKind::Maps(m) => after == before && r == m.model(),
        AppKind::Mbta(m) => after == before && r == m.model(),
    }
}

impl<T: TimeSource> AppKind<T> {
    /// The active app's path for a frame: exactly the path the variant's
    /// own contract fixes.
    pub fn get_path(&mut self, frame: u64) -> (r: Path)
        ensures
            app_path_ok(*old(self), *final(self), frame as int, r@),
    {
        match self {
            AppKind::Align(a) => a.produce(),
            AppKind::Alphabet(a) => a.produce(),
            AppKind::Asteroids(a) => {
                if a.wf_check() {
                    a.produce(frame)
                } else {
                    Vec::new()
                }
            },
            AppKind::Clock(a) => a.produce(frame),
            AppKind::Cube(a) => a.produce(frame),
            AppKind::Ilda(a) => a.produce(),
            AppKind::Maps(a) => a.produce(),
            AppKind::Mbta(a) => a.produce(),
        }
    }

    /// Hand a controls snapshot to the active app; none of the owned
    /// apps reacts to it.
    pub fn handle_controls(&mut self, controls: Controls)
        ensures
            *final(self) == *old(self),
    {
    }
}

/// A combinator that owns an ordered collection of apps, forwards
/// frames and controls to the active one, and switches to the next on
/// the secondary button.
pub struct Cycle<T: TimeSource> {
    apps: Vec<AppKind<T>>,
    idx: usize,
}

impl<T: TimeSource> Cycle<T> {
    /// The collection is nonempty and the active index within it.
    pub closed spec fn wf(&self) -> bool {
        self.apps@.len() > 0 && self.idx < self.apps@.len()
    }

    /// How many apps are owned.
    pub closed spec fn napps(&self) -> int {
        self.apps@.len() as int
    }

    /// The active app's position.
    pub closed spec fn sidx(&self) -> int {
        self.idx as int
    }

    /// The app held at a position.
    pub closed spec fn sapp(&self, i: int) -> AppKind<T> {
        self.apps@[i]
    }

    /// Own the given apps, starting at the first; an empty collection is
    /// rejected here rather than at the first frame.
    pub fn new(apps: Vec<AppKind<T>>) -> (r: Option<Self>)
        ensures
            r is Some <==> apps@.len() > 0,
            r matches Some(c) ==> c.wf() && c.napps() == apps@.len() && c.sidx() == 0
                && forall|k: int| 0 <= k < apps@.len() ==> c.sapp(k) == apps@[k],
    {
        if apps.len() == 0 {
            None
        } else {
            Some(Cycle { apps, idx: 0 })
        }
    }

    /// The active app's path for a frame: exactly what that app's own
    /// contract returns for this frame, with the frame handed to it once;
    /// dormant apps are untouched and receive no call.
    pub fn get_path(&mut self, frame: u64) -> (r: Path)
        requires
            old(self).wf(),
        ensures
            final(self).wf(),
            final(self).sidx() == old(self).sidx(),
            final(self).napps() == old(self).napps(),
            app_path_ok(
                old(self).sapp(old(self).sidx()),
                final(self).sapp(old(self).sidx()),
                frame as int,
                r@,
            ),
            forall|k: int|
                0 <= k < old(self).napps() && k != old(self).sidx() ==> final(self).sapp(k)
                    == old(self).sapp(k),
    {
        let ghost apps0 = self.apps@;
        let i = self.idx;
        let mut app = self.apps.remove(i);
        let r = app.get_path(frame);
        self.apps.insert(i, app);
        proof {
            assert(self.apps@ =~= apps0.update(i as int, self.apps@[i as int]));
        }
        r
    }

    /// Switch to the next app on the secondary button; hand anything
    /// else to the active app, which (none of the owned apps reacting to
    /// controls) leaves every app unchanged.
    pub fn handle_controls(&mut self, controls: Controls)
        requires
            old(self).wf(),
        ensures
            final(self).wf(),
            final(self).napps() == old(self).napps(),
            controls.b ==> final(self).sidx() == (old(self).sidx() + 1) % old(self).napps(),
            !controls.b ==> final(self).sidx() == old(self).sidx(),
            forall|k: int|
                0 <= k < old(self).napps() ==> final(self).sapp(k) == old(self).sapp(k),
    {
        let ghost apps0 = self.apps@;
        if controls.b {
            let n = self.apps.len();
            self.idx = (self.idx + 1) % n;
        } else {
            let i = self.idx;
            let mut app = self.apps.remove(i);
            app.handle_controls(controls);
            self.apps.insert(i, app);
            proof {
                assert(self.apps@ =~= apps0);
            }
        }
    }
}

} // verus!
