//! The device-side demo layer: text rendered to packed-color device
//! points with a simple distance-proportional delay model.

use vstd::prelude::*;

use crate::font::{self, FontMapping, HersheyRenderer};
use crate::proto::{Point, COLOR_RED};
use crate::textpath::{dac_milli, seg_dist, sx, sy, MAX_SCALE_MILLI};

verus! {

/// The interface a demo offers the output loop: one path per frame.
pub trait Demo {
    /// The points to scan for the given frame.
    fn get_path(&self, frame: u64) -> Vec<Point>;
}

/// The delay before a stroke point: the scaled distance at fifteen
/// microseconds per unit, less a fixed offset, clamped to the window,
/// plus an extra settle when the pen just dropped.
pub open spec fn fw_delay(d: int, extra: int) -> int {
    let v = d * 15 / 1000;
    let c = if v < 2 {
        0int
    } else if v - 2 > 500 {
        500int
    } else {
        v - 2
    };
    c + extra
}

/// Rendering a stroke sequence to device points, one point per stroke:
/// the first point settles, every other waits in proportion to its
/// distance, with extra time where the pen drops.
pub open spec fn fw_acc(
    strokes: Seq<font::Point>,
    i: int,
    acc: Seq<Point>,
    xs: int,
    ys: int,
    ox: int,
    oy: int,
) -> Seq<Point>
    decreases strokes.len() - i,
{
    if i < 1 || i >= strokes.len() {
        acc
    } else {
        let from = strokes[i - 1];
        let to = strokes[i];
        let d = seg_dist(from, to, xs, ys);
        let extra = if to.pen && !from.pen {
            25int
        } else {
            0int
        };
        let p = Point {
            x: dac_milli(sx(to, xs, ox)),
            y: dac_milli(sy(to, ys, oy)),
            delay: fw_delay(d, extra) as u16,
            color: if to.pen {
                COLOR_RED
            } else {
                0u8
            },
        };
        fw_acc(strokes, i + 1, acc.push(p), xs, ys, ox, oy)
    }
}

/// The device path of a stroke sequence.
pub open spec fn spec_fw_path(strokes: Seq<font::Point>, xs: int, ys: int, ox: int, oy: int)
    -> Seq<Point> {
    if strokes.len() == 0 {
        Seq::empty()
    } else {
        let first = strokes[0];
        let p0 = Point {
            x: dac_milli(sx(first, xs, ox)),
            y: dac_milli(sy(first, ys, oy)),
            delay: 500,
            color: if first.pen {
                COLOR_RED
            } else {
                0u8
            },
        };
        fw_acc(strokes, 1, seq![p0], xs, ys, ox, oy)
    }
}

/// Render a text to device points with the simple delay model.
pub fn text_to_path(
    renderer: &HersheyRenderer,
    text: &[u8],
    x: u8,
    y: u8,
    x_scale_milli: u32,
    y_scale_milli: u32,
    mapping: &FontMapping,
) -> (r: Vec<Point>)
    requires
        renderer.wf(),
        mapping.wf(),
        text@.len() <= 8000000,
        x_scale_milli <= MAX_SCALE_MILLI,
        y_scale_milli <= MAX_SCALE_MILLI,
    ensures
        r@ == spec_fw_path(
            font::spec_render(renderer.model(), mapping.model(), text@),
            x_scale_milli as int,
            y_scale_milli as int,
            x as int,
            y as int,
        ),
{
    let strokes = renderer.render_text(text, mapping);
    let xs: i64 = x_scale_milli as i64;
    let ys: i64 = y_scale_milli as i64;
    let mut out: Vec<Point> = Vec::new();
    if strokes.len() == 0 {
        return out;
    }
    let first = strokes[0];
    proof {
        lemma_fw_base_bounds(first, xs as int, ys as int);
    }
    out.push(
        Point {
            x: fw_dac(first.x as i64 * xs + x as i64 * 1000),
            y: fw_dac(first.y as i64 * ys + y as i64 * 1000),
            delay: 500,
            color: if first.pen {
                COLOR_RED
            } else {
                0
            },
        },
    );
    let mut i: usize = 1;
    while i < strokes.len()
        invariant
            1 <= i <= strokes@.len(),
            xs == x_scale_milli as i64,
            ys == y_scale_milli as i64,
            0 <= xs <= 1000000,
            0 <= ys <= 1000000,
            spec_fw_path(strokes@, xs as int, ys as int, x as int, y as int) == fw_acc(
                strokes@,
                i as int,
                out@,
                xs as int,
                ys as int,
                x as int,
                y as int,
            ),
        decreases strokes@.len() - i,
    {
        let from = strokes[i - 1];
        let to = strokes[i];
        let d = crate::textpath::seg_dist_exec(from, to, xs, ys);
        let extra: u16 = if to.pen && !from.pen {
            25
        } else {
            0
        };
        let v: u64 = d * 15 / 1000;
        let c: u16 = if v < 2 {
            0
        } else if v - 2 > 500 {
            500
        } else {
            (v - 2) as u16
        };
        proof {
            lemma_fw_base_bounds(to, xs as int, ys as int);
        }
        out.push(
            Point {
                x: fw_dac(to.x as i64 * xs + x as i64 * 1000),
                y: fw_dac(to.y as i64 * ys + y as i64 * 1000),
                delay: c + extra,
                color: if to.pen {
                    COLOR_RED
                } else {
                    0
                },
            },
        );
        i = i + 1;
    }
    out
}

/// The scaled position of a stroke point fits the machine word.
proof fn lemma_fw_base_bounds(p: font::Point, xs: int, ys: int)
    requires
        0 <= xs <= 1000000,
        0 <= ys <= 1000000,
    ensures
        -2147483648000000 <= p.x * xs <= 2147483648000000,
        -2147483648000000 <= p.y * ys <= 2147483648000000,
{
    assert(-2147483648000000 <= p.x * xs <= 2147483648000000) by (nonlinear_arith)
        requires -2147483648 <= p.x <= 2147483647, 0 <= xs <= 1000000;
    assert(-2147483648000000 <= p.y * ys <= 2147483648000000) by (nonlinear_arith)
        requires -2147483648 <= p.y <= 2147483647, 0 <= ys <= 1000000;
}

/// Map a milli-unit position onto the DAC range.
fn fw_dac(v: i64) -> (r: u8)
    ensures
        r == dac_milli(v as int),
{
    if v < 0 {
        0
    } else if v > 255000 {
        255
    } else {
        (v / 1000) as u8
    }
}

/// A fixed alphabet display: several sample rows rendered once.
pub struct AlphabetDemo {
    points: Vec<Point>,
}

/// The sample rows the alphabet demo shows, top to bottom.
pub open spec fn alphabet_row(i: int) -> Seq<u8> {
    if i == 0 || i == 1 {
        seq![49u8, 50u8, 51u8, 52u8, 53u8, 54u8, 55u8, 56u8]
    } else if i == 2 || i == 3 {
        seq![65u8, 66u8, 67u8, 68u8, 69u8, 70u8, 71u8, 72u8]
    } else {
        seq![97u8, 98u8, 99u8, 100u8, 101u8, 102u8, 103u8, 104u8]
    }
}

/// The vertical position of each sample row.
pub open spec fn alphabet_row_y(i: int) -> int {
    if i == 0 {
        32
    } else if i == 1 {
        64
    } else if i == 2 {
        128
    } else if i == 3 {
        160
    } else {
        192
    }
}

impl AlphabetDemo {
    /// The demo's own picture of its cached path.
    pub closed spec fn model(&self) -> Seq<Point> {
        self.points@
    }

    /// Render the five sample rows once.
    pub fn new(renderer: &HersheyRenderer, mapping: &FontMapping) -> (r: Self)
        requires
            renderer.wf(),
            mapping.wf(),
        ensures
            r.model() == spec_fw_path(
                font::spec_render(renderer.model(), mapping.model(), alphabet_row(0)),
                1000,
                1000,
                0,
                32,
            ) + spec_fw_path(
                font::spec_render(renderer.model(), mapping.model(), alphabet_row(1)),
                1000,
                1000,
                0,
                64,
            ) + spec_fw_path(
                font::spec_render(renderer.model(), mapping.model(), alphabet_row(2)),
                1000,
                1000,
                0,
                128,
            ) + spec_fw_path(
                font::spec_render(renderer.model(), mapping.model(), alphabet_row(3)),
                1000,
                1000,
                0,
                160,
            ) + spec_fw_path(
                font::spec_render(renderer.model(), mapping.model(), alphabet_row(4)),
                1000,
                1000,
                0,
                192,
            ),
    {
        let row_digits: Vec<u8> = vec![49, 50, 51, 52, 53, 54, 55, 56];
        let row_upper: Vec<u8> = vec![65, 66, 67, 68, 69, 70, 71, 72];
        let row_lower: Vec<u8> = vec![97, 98, 99, 100, 101, 102, 103, 104];
        proof {
            assert(row_digits@ =~= alphabet_row(0));
            assert(row_upper@ =~= alphabet_row(2));
            assert(row_lower@ =~= alphabet_row(4));
        }
        let mut points = text_to_path(renderer, row_digits.as_slice(), 0, 32, 1000, 1000, mapping);
        let mut p2 = text_to_path(renderer, row_digits.as_slice(), 0, 64, 1000, 1000, mapping);
        points.append(&mut p2);
        let mut p3 = text_to_path(renderer, row_upper.as_slice(), 0, 128, 1000, 1000, mapping);
        points.append(&mut p3);
        let mut p4 = text_to_path(renderer, row_upper.as_slice(), 0, 160, 1000, 1000, mapping);
        points.append(&mut p4);
        let mut p5 = text_to_path(renderer, row_lower.as_slice(), 0, 192, 1000, 1000, mapping);
        points.append(&mut p5);
        AlphabetDemo { points }
    }
}

impl Demo for AlphabetDemo {
    /// The cached path, the same for every frame.
    fn get_path(&self, frame: u64) -> Vec<Point> {
        let mut out: Vec<Point> = Vec::new();
        let mut i: usize = 0;
        while i < self.points.len()
            invariant
                0 <= i <= self.points@.len(),
                out@ =~= self.points@.take(i as int),
            decreases self.points@.len() - i,
        {
            out.push(self.points[i]);
            i = i + 1;
        }
        proof {
            assert(out@ =~= self.points@);
        }
        out
    }
}

} // verus!
