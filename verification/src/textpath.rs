//! The path timing synthesizer: turning raw stroke points into timed,
//! colored output points.
//!
//! Geometry is carried in thousandths (milli-units) of the device
//! coordinate space. For each segment between consecutive stroke points
//! the synthesizer computes the scaled Euclidean distance, skips the
//! segment entirely when it is zero, subdivides it so no hop exceeds the
//! maximum step, spreads the segment's travel time over the sub-points,
//! and inserts a dwell point at sharp pen-down corners.

use vstd::arithmetic::div_mod::{
    lemma_div_by_multiple, lemma_div_denominator, lemma_div_is_ordered,
    lemma_div_is_ordered_by_denominator, lemma_div_multiples_vanish, lemma_div_pos_is_pos,
    lemma_fundamental_div_mod, lemma_hoist_over_denominator, lemma_multiply_divide_lt,
};
use vstd::arithmetic::mul::{lemma_mul_inequality, lemma_mul_is_commutative};
use vstd::prelude::*;

use crate::font;
use crate::numeric::{isqrt128, sqrt_floor};
use crate::point::Point;

verus! {

/// Beam velocity while drawing, in device units per second.
pub const DRAW_VELOCITY: u64 = 20000;

/// Beam velocity while traveling with the beam off; faster than drawing
/// so no stroke is visible during moves.
pub const TRAVEL_VELOCITY: u64 = 40000;

/// Maximum distance between emitted points, in milli-units.
pub const MAX_STEP_MILLI: u64 = 4000;

/// Lower clamp for a sub-point delay, in microseconds.
pub const DT_MIN: u16 = 0;

/// Upper clamp for a sub-point delay, in microseconds.
pub const DT_MAX: u16 = 500;

/// Base dwell time at a sharp corner, in microseconds.
pub const CORNER_DWELL_US: u16 = 10;

/// Settle delay of the first emitted point, in microseconds.
pub const SETTLE_DELAY: u16 = 300;

/// Largest accepted per-axis scale, in thousandths.
pub const MAX_SCALE_MILLI: u32 = 1000000;

/// The scaled x position of a stroke point, in milli-units.
pub open spec fn sx(p: font::Point, xs: int, ox: int) -> int {
    p.x * xs + ox * 1000
}

/// The scaled y position of a stroke point, in milli-units.
pub open spec fn sy(p: font::Point, ys: int, oy: int) -> int {
    p.y * ys + oy * 1000
}

/// Map a milli-unit position onto the 8-bit DAC range, clamping at the
/// edges and truncating to whole units.
pub open spec fn dac_milli(v: int) -> u8 {
    if v < 0 {
        0u8
    } else if v > 255000 {
        255u8
    } else {
        (v / 1000) as u8
    }
}

/// The scaled length of the segment between two stroke points, in
/// milli-units: the rounded-down Euclidean norm.
pub open spec fn seg_dist(from: font::Point, to: font::Point, xs: int, ys: int) -> int {
    let dx = (to.x - from.x) * xs;
    let dy = (to.y - from.y) * ys;
    sqrt_floor((dx * dx + dy * dy) as nat) as int
}

/// The number of sub-points a segment of length `d` is divided into: the
/// rounded-up number of maximum steps.
pub open spec fn seg_steps(d: int) -> int {
    (d + 3999) / 4000
}

/// The whole segment's travel time in microseconds: length over velocity,
/// the velocity chosen by the destination's pen state.
pub open spec fn seg_total_us(d: int, pen: bool) -> int {
    if pen {
        d * 1000 / (DRAW_VELOCITY as int)
    } else {
        d * 1000 / (TRAVEL_VELOCITY as int)
    }
}

/// The delay of sub-point `k` (1-based) of a segment: the travel time is
/// spread over the sub-points so the pieces sum to the whole.
pub open spec fn piece(total: int, steps: int, k: int) -> int {
    total * k / steps - total * (k - 1) / steps
}

/// A sub-point delay clamped to the configured window.
pub open spec fn clamp_piece(p: int) -> int {
    if p < DT_MIN as int {
        DT_MIN as int
    } else if p > DT_MAX as int {
        DT_MAX as int
    } else {
        p
    }
}

/// An interpolated scaled position: `base` plus `s / steps` of `delta`,
/// rounded toward the base.
pub open spec fn scaled_interp(base: int, delta: int, s: int, steps: int) -> int {
    if delta >= 0 {
        base + delta * s / steps
    } else {
        base - (-delta) * s / steps
    }
}

/// Each delay piece equals the remainder carried into it plus the ideal
/// share, divided once: `(total * (k-1) % steps + total) / steps`.
proof fn lemma_piece_shape(total: int, steps: int, k: int)
    requires
        steps >= 1,
        total >= 0,
        k >= 1,
    ensures
        piece(total, steps, k) == (total * (k - 1) % steps + total) / steps,
        piece(total, steps, k) >= 0,
{
    let a = total * (k - 1);
    assert(total * (k - 1) >= 0) by (nonlinear_arith)
        requires total >= 0, k >= 1;
    lemma_fundamental_div_mod(a, steps);
    let q1 = a / steps;
    let r1 = a % steps;
    assert(0 <= r1 < steps) by {
        vstd::arithmetic::div_mod::lemma_mod_division_less_than_divisor(a, steps);
        vstd::arithmetic::div_mod::lemma_remainder_lower(a, steps);
    }
    assert(total * k == a + total) by (nonlinear_arith)
        requires a == total * (k - 1);
    assert((r1 + total) / steps + q1 == (r1 + total + q1 * steps) / steps) by {
        lemma_hoist_over_denominator(r1 + total, q1, steps as nat);
    }
    assert(a + total == r1 + total + q1 * steps) by (nonlinear_arith)
        requires a == steps * q1 + r1;
    lemma_div_pos_is_pos(r1 + total, steps);
}

/// When the travel time is at most 200 microseconds per sub-point on
/// average, no piece exceeds 200, and so none leaves the clamp window.
proof fn lemma_piece_bound(total: int, steps: int, k: int)
    requires
        steps >= 1,
        0 <= total <= 200 * steps,
        k >= 1,
    ensures
        0 <= piece(total, steps, k) <= 200,
{
    lemma_piece_shape(total, steps, k);
    let r1 = total * (k - 1) % steps;
    assert(0 <= r1 < steps) by {
        vstd::arithmetic::div_mod::lemma_mod_division_less_than_divisor(total * (k - 1), steps);
        vstd::arithmetic::div_mod::lemma_remainder_lower(total * (k - 1), steps);
        assert(total * (k - 1) >= 0) by (nonlinear_arith)
            requires total >= 0, k >= 1;
    }
    assert(r1 + total < 201 * steps) by (nonlinear_arith)
        requires r1 < steps, total <= 200 * steps;
    assert((r1 + total) / steps < 201) by {
        lemma_multiply_divide_lt(r1 + total, steps, 201);
    }
}

/// The running sum of delay pieces: after `m` pieces it equals the floor
/// of `m / steps` of the total, so after all `steps` pieces it is exactly
/// the total.
proof fn lemma_piece_sum(total: int, steps: int, m: int)
    requires
        steps >= 1,
        total >= 0,
        0 <= m <= steps,
    ensures
        sum_pieces(total, steps, m) == total * m / steps,
        m == steps ==> sum_pieces(total, steps, m) == total,
    decreases m,
{
    if m == 0 {
        assert(total * 0 == 0) by (nonlinear_arith);
        assert(0int / steps == 0) by {
            vstd::arithmetic::div_mod::lemma_div_of0(steps);
        }
    } else {
        lemma_piece_sum(total, steps, m - 1);
    }
    if m == steps {
        assert(total * steps / steps == total) by {
            lemma_div_by_multiple(total, steps);
        }
    }
}

/// The sum of the first `m` delay pieces of a segment.
pub open spec fn sum_pieces(total: int, steps: int, m: int) -> int
    decreases m,
{
    if m <= 0 {
        0
    } else {
        sum_pieces(total, steps, m - 1) + piece(total, steps, m)
    }
}

/// Halving rounded toward zero, matching machine division of signed
/// integers by two.
pub open spec fn half_to_zero(v: int) -> int {
    if v >= 0 {
        v / 2
    } else {
        -((-v) / 2)
    }
}

/// Corner vectors small enough for the sharpness test's fixed-width
/// arithmetic.
pub open spec fn corner_fit(ax: int, ay: int, bx: int, b_y: int) -> bool {
    -32767 <= ax <= 32767 && -32767 <= ay <= 32767 && -32767 <= bx <= 32767 && -32767 <= b_y
        <= 32767
}

/// The magnitude of an integer.
pub open spec fn abs_i(v: int) -> int {
    if v < 0 {
        -v
    } else {
        v
    }
}

/// Both corner vectors halved together until they fit the sharpness
/// test's range; halving both preserves the angle between them up to
/// rounding.
pub open spec fn shrink_corner(ax: int, ay: int, bx: int, b_y: int) -> (int, int, int, int)
    decreases abs_i(ax) + abs_i(ay) + abs_i(bx) + abs_i(b_y),
    via shrink_corner_decreases
{
    if corner_fit(ax, ay, bx, b_y) {
        (ax, ay, bx, b_y)
    } else {
        shrink_corner(half_to_zero(ax), half_to_zero(ay), half_to_zero(bx), half_to_zero(b_y))
    }
}

/// Halving toward zero never raises a magnitude, and strictly lowers one
/// of at least one unit.
proof fn lemma_half_abs(v: int)
    ensures
        0 <= abs_i(half_to_zero(v)) <= abs_i(v),
        abs_i(v) >= 1 ==> abs_i(half_to_zero(v)) < abs_i(v),
{
}

#[via_fn]
proof fn shrink_corner_decreases(ax: int, ay: int, bx: int, b_y: int) {
    if !corner_fit(ax, ay, bx, b_y) {
        lemma_half_abs(ax);
        lemma_half_abs(ay);
        lemma_half_abs(bx);
        lemma_half_abs(b_y);
    }
}

/// The sharp-corner test on the shrunk vectors: the angle's cosine is
/// below seven tenths, stated without square roots by comparing squares
/// (a negative dot product is always sharp). On vectors that needed no
/// shrinking this is the exact threshold; shrinking very long vectors
/// halves both together, which can move a borderline angle by the
/// rounding of one halving.
pub open spec fn corner_sharp(adotb: int, a2: int, b2: int) -> bool {
    adotb < 0 || 100 * adotb * adotb < 49 * a2 * b2
}

/// The corner dwell time in microseconds: the base dwell scaled by the
/// sharpness `1 - cos`. The cosine is quantized to tenths through the
/// rounded-down vector magnitudes, so the dwell can differ by about one
/// microsecond from the ideal `10 * (1 - cos)`; the direction of the
/// scaling -- sharper corners dwell longer, up to twice the base -- is
/// kept exactly.
pub open spec fn dwell_us(adotb: int, a2: int, b2: int) -> int {
    let denom = sqrt_floor(a2 as nat) * sqrt_floor(b2 as nat) as int;
    let q = if adotb >= 0 {
        10 * adotb / denom
    } else {
        -(10 * (-adotb) / denom)
    };
    let qc = if q > 10 {
        10
    } else if q < -10 {
        -10
    } else {
        q
    };
    10 - qc
}

/// The dwell point inserted at an interior vertex where both adjoining
/// segments draw: none unless both pens are down, the vectors are
/// nonzero and the corner is sharp.
pub open spec fn corner_dwell(
    from: font::Point,
    to: font::Point,
    next: font::Point,
    xs: int,
    ys: int,
    ox: int,
    oy: int,
    color: (u8, u8, u8),
) -> Seq<Point> {
    if !(from.pen && to.pen) {
        Seq::empty()
    } else {
        let v = shrink_corner(to.x - from.x, to.y - from.y, next.x - to.x, next.y - to.y);
        let a2 = v.0 * v.0 + v.1 * v.1;
        let b2 = v.2 * v.2 + v.3 * v.3;
        let adotb = v.0 * v.2 + v.1 * v.3;
        if a2 > 0 && b2 > 0 && corner_sharp(adotb, a2, b2) {
            seq![
                Point {
                    x: dac_milli(sx(to, xs, ox)),
                    y: dac_milli(sy(to, ys, oy)),
                    color: color,
                    delay: dwell_us(adotb, a2, b2) as u16,
                },
            ]
        } else {
            Seq::empty()
        }
    }
}

/// The sub-points of one segment of length `d > 0`: positions stepped
/// along the segment, the blanked color when traveling, and the delay
/// pieces of the travel time, clamped to the configured window.
pub open spec fn seg_subpoints(
    from: font::Point,
    to: font::Point,
    xs: int,
    ys: int,
    ox: int,
    oy: int,
    color: (u8, u8, u8),
    d: int,
) -> Seq<Point> {
    let steps = seg_steps(d);
    let total = seg_total_us(d, to.pen);
    let dx = (to.x - from.x) * xs;
    let dy = (to.y - from.y) * ys;
    Seq::new(
        steps as nat,
        |s: int| Point {
            x: dac_milli(scaled_interp(sx(from, xs, ox), dx, s + 1, steps)),
            y: dac_milli(scaled_interp(sy(from, ys, oy), dy, s + 1, steps)),
            color: if to.pen {
                color
            } else {
                (0u8, 0u8, 0u8)
            },
            delay: clamp_piece(piece(total, steps, s + 1)) as u16,
        },
    )
}

/// Synthesis, segment by segment from stroke `i`: zero-length segments
/// are passed over entirely, every other segment contributes its
/// sub-points and, at a sharp pen-down corner, one dwell point.
pub open spec fn synth_acc(
    strokes: Seq<font::Point>,
    xs: int,
    ys: int,
    ox: int,
    oy: int,
    color: (u8, u8, u8),
    i: int,
    acc: Seq<Point>,
) -> Seq<Point>
    decreases strokes.len() - i,
{
    if i < 1 || i >= strokes.len() {
        acc
    } else {
        let from = strokes[i - 1];
        let to = strokes[i];
        let d = seg_dist(from, to, xs, ys);
        if d == 0 {
            synth_acc(strokes, xs, ys, ox, oy, color, i + 1, acc)
        } else {
            let pts = seg_subpoints(from, to, xs, ys, ox, oy, color, d);
            let dw = if i + 1 < strokes.len() {
                corner_dwell(from, to, strokes[i + 1], xs, ys, ox, oy, color)
            } else {
                Seq::empty()
            };
            synth_acc(strokes, xs, ys, ox, oy, color, i + 1, acc + pts + dw)
        }
    }
}

/// The timed path of a stroke sequence: the first point with the settle
/// delay, then every segment's sub-points in order.
pub open spec fn spec_synthesize(
    strokes: Seq<font::Point>,
    xs: int,
    ys: int,
    ox: int,
    oy: int,
    color: (u8, u8, u8),
) -> Seq<Point> {
    if strokes.len() == 0 {
        Seq::empty()
    } else {
        let first = strokes[0];
        let p0 = Point {
            x: dac_milli(sx(first, xs, ox)),
            y: dac_milli(sy(first, ys, oy)),
            color: if first.pen {
                color
            } else {
                (0u8, 0u8, 0u8)
            },
            delay: SETTLE_DELAY,
        };
        synth_acc(strokes, xs, ys, ox, oy, color, 1, seq![p0])
    }
}

/// The sum of the delays of a point sequence, in microseconds.
pub open spec fn sum_delays(s: Seq<Point>) -> int
    decreases s.len(),
{
    if s.len() == 0 {
        0
    } else {
        sum_delays(s.drop_last()) + s.last().delay
    }
}

/// A zero-length segment emits nothing: when two consecutive stroke
/// points scale to the same position, synthesis passes over the segment
/// without adding a single point.
pub proof fn lemma_zero_segment_emits_nothing(
    strokes: Seq<font::Point>,
    xs: int,
    ys: int,
    ox: int,
    oy: int,
    color: (u8, u8, u8),
    i: int,
    acc: Seq<Point>,
)
    requires
        1 <= i < strokes.len(),
        seg_dist(strokes[i - 1], strokes[i], xs, ys) == 0,
    ensures
        synth_acc(strokes, xs, ys, ox, oy, color, i, acc) == synth_acc(
            strokes,
            xs,
            ys,
            ox,
            oy,
            color,
            i + 1,
            acc,
        ),
{
}

/// The travel time of a segment never exceeds 200 microseconds per
/// sub-point on average, and a segment always has at least one sub-point.
proof fn lemma_total_vs_steps(d: int, pen: bool)
    requires
        d >= 1,
    ensures
        seg_steps(d) >= 1,
        0 <= seg_total_us(d, pen) <= 200 * seg_steps(d),
{
    let steps = seg_steps(d);
    assert(steps >= 1) by {
        lemma_div_is_ordered(4000, d + 3999, 4000);
        lemma_div_by_multiple(1, 4000);
        assert(1 * 4000 == 4000);
    }
    assert(4000 * steps >= d) by {
        lemma_fundamental_div_mod(d + 3999, 4000);
        vstd::arithmetic::div_mod::lemma_mod_division_less_than_divisor(d + 3999, 4000);
    }
    assert(d * 1000 / 20000 == d / 20) by {
        lemma_div_denominator(d * 1000, 1000, 20);
        lemma_div_by_multiple(d, 1000);
        lemma_mul_is_commutative(d, 1000);
        assert(1000int * 20 == 20000);
    }
    assert(d * 1000 / 40000 <= d * 1000 / 20000) by {
        lemma_div_is_ordered_by_denominator(d * 1000, 20000, 40000);
        assert(d * 1000 >= 0) by (nonlinear_arith)
            requires d >= 1;
    }
    assert(d / 20 <= 200 * steps) by {
        lemma_div_is_ordered(d, 4000 * steps, 20);
        assert(4000 * steps == 20 * (200 * steps)) by (nonlinear_arith);
        lemma_div_multiples_vanish(200 * steps, 20);
    }
    assert(seg_total_us(d, pen) >= 0) by {
        lemma_div_pos_is_pos(d * 1000, 20000);
        lemma_div_pos_is_pos(d * 1000, 40000);
        assert(d * 1000 >= 0) by (nonlinear_arith)
            requires d >= 1;
    }
}

/// For a segment of positive scaled length, the emitted sub-point delays
/// sum exactly to the segment's whole travel time in microseconds -- the
/// scaled distance over the velocity -- and every single delay lies
/// within the configured clamp window.
pub proof fn lemma_segment_delay_budget(
    from: font::Point,
    to: font::Point,
    xs: int,
    ys: int,
    ox: int,
    oy: int,
    color: (u8, u8, u8),
    d: int,
)
    requires
        d == seg_dist(from, to, xs, ys),
        d > 0,
    ensures
        seg_subpoints(from, to, xs, ys, ox, oy, color, d).len() == seg_steps(d),
        sum_delays(seg_subpoints(from, to, xs, ys, ox, oy, color, d)) == seg_total_us(d, to.pen),
        forall|j: int|
            0 <= j < seg_subpoints(from, to, xs, ys, ox, oy, color, d).len()
                ==> DT_MIN <= #[trigger] seg_subpoints(from, to, xs, ys, ox, oy, color, d)[j].delay
                <= DT_MAX,
{
    let steps = seg_steps(d);
    let total = seg_total_us(d, to.pen);
    let sub = seg_subpoints(from, to, xs, ys, ox, oy, color, d);
    lemma_total_vs_steps(d, to.pen);
    assert forall|j: int| 0 <= j < sub.len() implies DT_MIN <= #[trigger] sub[j].delay
        <= DT_MAX by {
        lemma_piece_bound(total, steps, j + 1);
    }
    assert forall|m: int| 0 <= m <= steps implies sum_delays(#[trigger] sub.take(m)) == sum_pieces(
        total,
        steps,
        m,
    ) by {
        lemma_sum_delays_take(from, to, xs, ys, ox, oy, color, d, m);
    }
    assert(sub.take(steps) =~= sub);
    lemma_piece_sum(total, steps, steps);
}

/// Map a milli-unit position onto the DAC range.
fn dac_from_milli(v: i64) -> (r: u8)
    ensures
        r == dac_milli(v as int),
{
    if v < 0 {
        0
    } else if v > 255000 {
        255
    } else {
        (v / 1000) as u8
    }
}

/// An interpolated scaled position along a segment.
fn interp_milli(base: i64, delta: i64, s: u64, steps: u64) -> (r: i64)
    requires
        1 <= steps,
        s <= steps,
        -2200000000000000 <= base <= 2200000000000000,
        -4400000000000000 <= delta <= 4400000000000000,
    ensures
        r == scaled_interp(base as int, delta as int, s as int, steps as int),
        -6600000000000000 <= r <= 6600000000000000,
{
    if delta >= 0 {
        proof {
            assert((delta as u128) * (s as u128) < 0x100000000000000000000000000000000int)
                by (nonlinear_arith)
                requires 0 <= delta <= 4400000000000000i64, s <= 0xffffffffffffffffu64;
        }
        let q128: u128 = (delta as u128) * (s as u128) / (steps as u128);
        proof {
            lemma_mul_inequality(s as int, steps as int, delta as int);
            lemma_mul_is_commutative(s as int, delta as int);
            lemma_mul_is_commutative(steps as int, delta as int);
            lemma_div_is_ordered(delta * s, delta * (steps as int), steps as int);
            lemma_div_by_multiple(delta as int, steps as int);
            lemma_div_pos_is_pos(delta * s, steps as int);
            assert(delta * s >= 0) by (nonlinear_arith)
                requires delta >= 0, s >= 0;
        }
        let q = q128 as i64;
        base + q
    } else {
        let nd: i64 = -delta;
        proof {
            assert((nd as u128) * (s as u128) < 0x100000000000000000000000000000000int)
                by (nonlinear_arith)
                requires 0 <= nd <= 4400000000000000i64, s <= 0xffffffffffffffffu64;
        }
        let q128: u128 = (nd as u128) * (s as u128) / (steps as u128);
        proof {
            lemma_mul_inequality(s as int, steps as int, nd as int);
            lemma_mul_is_commutative(s as int, nd as int);
            lemma_mul_is_commutative(steps as int, nd as int);
            lemma_div_is_ordered(nd * s, nd * (steps as int), steps as int);
            lemma_div_by_multiple(nd as int, steps as int);
            lemma_div_pos_is_pos(nd * s, steps as int);
            assert(nd * s >= 0) by (nonlinear_arith)
                requires nd >= 0, s >= 0;
        }
        let q = q128 as i64;
        base - q
    }
}

/// The scaled length of a segment, in milli-units.
pub(crate) fn seg_dist_exec(from: font::Point, to: font::Point, xs: i64, ys: i64) -> (r: u64)
    requires
        0 <= xs <= 1000000,
        0 <= ys <= 1000000,
    ensures
        r == seg_dist(from, to, xs as int, ys as int),
        r <= 6300000000000000,
{
    let dxu: i64 = to.x as i64 - from.x as i64;
    let dyu: i64 = to.y as i64 - from.y as i64;
    proof {
        assert(-4400000000000000 <= dxu * xs <= 4400000000000000) by (nonlinear_arith)
            requires -4294967296i64 <= dxu <= 4294967296i64, 0 <= xs <= 1000000i64;
        assert(-4400000000000000 <= dyu * ys <= 4400000000000000) by (nonlinear_arith)
            requires -4294967296i64 <= dyu <= 4294967296i64, 0 <= ys <= 1000000i64;
    }
    let dx: i64 = dxu * xs;
    let dy: i64 = dyu * ys;
    proof {
        assert(0 <= (dx as i128) * (dx as i128) <= 19360000000000000000000000000000int)
            by (nonlinear_arith)
            requires -4400000000000000i64 <= dx <= 4400000000000000i64;
        assert(0 <= (dy as i128) * (dy as i128) <= 19360000000000000000000000000000int)
            by (nonlinear_arith)
            requires -4400000000000000i64 <= dy <= 4400000000000000i64;
    }
    let sq: i128 = (dx as i128) * (dx as i128) + (dy as i128) * (dy as i128);
    let d = isqrt128(sq as u128);
    proof {
        crate::numeric::lemma_sqrt_floor_is(sq as nat);
        assert(d <= 6300000000000000u64) by (nonlinear_arith)
            requires
                d * d <= 38720000000000000000000000000000int,
                d >= 0,
        ;
    }
    d
}

/// Shrink the two corner vectors until the sharpness test's fixed-width
/// arithmetic can take them.
fn shrink_corner_exec(ax0: i64, ay0: i64, bx0: i64, by0: i64) -> (r: (i64, i64, i64, i64))
    requires
        -4294967296 <= ax0 <= 4294967296,
        -4294967296 <= ay0 <= 4294967296,
        -4294967296 <= bx0 <= 4294967296,
        -4294967296 <= by0 <= 4294967296,
    ensures
        (r.0 as int, r.1 as int, r.2 as int, r.3 as int) == shrink_corner(
            ax0 as int,
            ay0 as int,
            bx0 as int,
            by0 as int,
        ),
        corner_fit(r.0 as int, r.1 as int, r.2 as int, r.3 as int),
{
    let mut ax = ax0;
    let mut ay = ay0;
    let mut bx = bx0;
    let mut b_y = by0;
    while !(ax >= -32767 && ax <= 32767 && ay >= -32767 && ay <= 32767 && bx >= -32767 && bx
        <= 32767 && b_y >= -32767 && b_y <= 32767)
        invariant
            -4294967296 <= ax <= 4294967296,
            -4294967296 <= ay <= 4294967296,
            -4294967296 <= bx <= 4294967296,
            -4294967296 <= b_y <= 4294967296,
            shrink_corner(ax0 as int, ay0 as int, bx0 as int, by0 as int) == shrink_corner(
                ax as int,
                ay as int,
                bx as int,
                b_y as int,
            ),
        decreases abs_i(ax as int) + abs_i(ay as int) + abs_i(bx as int) + abs_i(b_y as int),
    {
        proof {
            lemma_half_abs(ax as int);
            lemma_half_abs(ay as int);
            lemma_half_abs(bx as int);
            lemma_half_abs(b_y as int);
        }
        ax = if ax >= 0 {
            ax / 2
        } else {
            -((-ax) / 2)
        };
        ay = if ay >= 0 {
            ay / 2
        } else {
            -((-ay) / 2)
        };
        bx = if bx >= 0 {
            bx / 2
        } else {
            -((-bx) / 2)
        };
        b_y = if b_y >= 0 {
            b_y / 2
        } else {
            -((-b_y) / 2)
        };
    }
    (ax, ay, bx, b_y)
}

/// The dwell point for the corner at `to`, when there is one.
fn corner_dwell_exec(
    from: font::Point,
    to: font::Point,
    next: font::Point,
    xs: i64,
    ys: i64,
    ox: u8,
    oy: u8,
    color: (u8, u8, u8),
) -> (r: Option<Point>)
    requires
        0 <= xs <= 1000000,
        0 <= ys <= 1000000,
    ensures
        corner_dwell(from, to, next, xs as int, ys as int, ox as int, oy as int, color)
            == match r {
            Option::Some(p) => seq![p],
            Option::None => Seq::<Point>::empty(),
        },
{
    if !(from.pen && to.pen) {
        return None;
    }
    let v = shrink_corner_exec(
        to.x as i64 - from.x as i64,
        to.y as i64 - from.y as i64,
        next.x as i64 - to.x as i64,
        next.y as i64 - to.y as i64,
    );
    let (ax, ay, bx, b_y) = v;
    proof {
        assert(0 <= ax * ax <= 1073741824int && 0 <= ay * ay <= 1073741824int && 0 <= bx * bx
            <= 1073741824int && 0 <= b_y * b_y <= 1073741824int && -1073741824int <= ax * bx
            <= 1073741824int && -1073741824int <= ay * b_y <= 1073741824int) by (nonlinear_arith)
            requires
                -32767i64 <= ax <= 32767i64,
                -32767i64 <= ay <= 32767i64,
                -32767i64 <= bx <= 32767i64,
                -32767i64 <= b_y <= 32767i64,
        ;
    }
    let a2: i64 = ax * ax + ay * ay;
    let b2: i64 = bx * bx + b_y * b_y;
    let adotb: i64 = ax * bx + ay * b_y;
    if a2 == 0 || b2 == 0 {
        return None;
    }
    proof {
        assert(0 <= (adotb as i128) * (adotb as i128) <= 4616190895520195076int)
            by (nonlinear_arith)
            requires -2148532226i64 <= adotb <= 2148532226i64;
        assert(0 <= (a2 as i128) * (b2 as i128) <= 4616190895520195076int) by (nonlinear_arith)
            requires 0 <= a2 <= 2148532226i64, 0 <= b2 <= 2148532226i64;
    }
    let sq_dot: i128 = (adotb as i128) * (adotb as i128);
    let sq_mag: i128 = (a2 as i128) * (b2 as i128);
    let lhs: i128 = 100 * sq_dot;
    let rhs: i128 = 49 * sq_mag;
    let sharp = adotb < 0 || lhs < rhs;
    proof {
        assert(100 * ((adotb as int) * (adotb as int)) == 100 * (adotb as int) * (adotb as int))
            by (nonlinear_arith);
        assert(49 * ((a2 as int) * (b2 as int)) == 49 * (a2 as int) * (b2 as int))
            by (nonlinear_arith);
    }
    if !sharp {
        return None;
    }
    let am = isqrt128(a2 as u128);
    let bm = isqrt128(b2 as u128);
    proof {
        crate::numeric::lemma_sqrt_floor_is(a2 as nat);
        crate::numeric::lemma_sqrt_floor_is(b2 as nat);
        assert(am >= 1) by (nonlinear_arith)
            requires a2 >= 1, (am + 1) * (am + 1) > a2, am >= 0;
        assert(am <= 65535u64) by (nonlinear_arith)
            requires am * am <= 2148532226int, am >= 0;
        assert(bm >= 1) by (nonlinear_arith)
            requires b2 >= 1, (bm + 1) * (bm + 1) > b2, bm >= 0;
        assert(bm <= 65535u64) by (nonlinear_arith)
            requires bm * bm <= 2148532226int, bm >= 0;
        assert(am * bm >= 1 && am * bm <= 4294967295int) by (nonlinear_arith)
            requires 1 <= am <= 65535u64, 1 <= bm <= 65535u64;
    }
    let denom: u64 = am * bm;
    let q: i64 = if adotb >= 0 {
        ((10 * (adotb as u64)) / denom) as i64
    } else {
        -(((10 * ((-adotb) as u64)) / denom) as i64)
    };
    proof {
        if adotb >= 0 {
            lemma_div_pos_is_pos(10 * (adotb as int), denom as int);
            lemma_div_is_ordered(10 * (adotb as int), 30000000000int, denom as int);
        } else {
            lemma_div_pos_is_pos(10 * (-adotb as int), denom as int);
            lemma_div_is_ordered(10 * (-adotb as int), 30000000000int, denom as int);
        }
    }
    let qc: i64 = if q > 10 {
        10
    } else if q < -10 {
        -10
    } else {
        q
    };
    let delay: u16 = (10 - qc) as u16;
    proof {
        assert(-2147483648000000int <= (to.x as int) * xs <= 2147483648000000int)
            by (nonlinear_arith)
            requires -2147483648i64 <= to.x as i64 <= 2147483647i64, 0 <= xs <= 1000000i64;
        assert(-2147483648000000int <= (to.y as int) * ys <= 2147483648000000int)
            by (nonlinear_arith)
            requires -2147483648i64 <= to.y as i64 <= 2147483647i64, 0 <= ys <= 1000000i64;
    }
    Some(
        Point {
            x: dac_from_milli(to.x as i64 * xs + ox as i64 * 1000),
            y: dac_from_milli(to.y as i64 * ys + oy as i64 * 1000),
            color,
            delay,
        },
    )
}

/// Produce the timed path of a raw stroke sequence: the first point with
/// the settle delay, then each nonzero segment subdivided into timed
/// sub-points, with dwell points at sharp pen-down corners. Zero-length
/// segments are skipped entirely.
pub fn synthesize(
    strokes: &Vec<font::Point>,
    x: u8,
    y: u8,
    x_scale_milli: u32,
    y_scale_milli: u32,
    color: (u8, u8, u8),
) -> (r: Vec<Point>)
    requires
        x_scale_milli <= MAX_SCALE_MILLI,
        y_scale_milli <= MAX_SCALE_MILLI,
    ensures
        r@ == spec_synthesize(
            strokes@,
            x_scale_milli as int,
            y_scale_milli as int,
            x as int,
            y as int,
            color,
        ),
        strokes@.len() == 0 ==> r@.len() == 0,
{
    let xs: i64 = x_scale_milli as i64;
    let ys: i64 = y_scale_milli as i64;
    let mut result: Vec<Point> = Vec::new();
    if strokes.len() == 0 {
        return result;
    }
    let first = strokes[0];
    proof {
        lemma_scaled_base_bounds(first, xs as int, ys as int);
    }
    result.push(
        Point {
            x: dac_from_milli(first.x as i64 * xs + x as i64 * 1000),
            y: dac_from_milli(first.y as i64 * ys + y as i64 * 1000),
            color: if first.pen {
                color
            } else {
                (0u8, 0u8, 0u8)
            },
            delay: SETTLE_DELAY,
        },
    );
    let mut i: usize = 1;
    while i < strokes.len()
        invariant
            1 <= i <= strokes@.len(),
            xs == x_scale_milli as i64,
            ys == y_scale_milli as i64,
            0 <= xs <= 1000000,
            0 <= ys <= 1000000,
            spec_synthesize(
                strokes@,
                xs as int,
                ys as int,
                x as int,
                y as int,
                color,
            ) == synth_acc(strokes@, xs as int, ys as int, x as int, y as int, color, i as int, result@),
        decreases strokes@.len() - i,
    {
        let from = strokes[i - 1];
        let to = strokes[i];
        let d = seg_dist_exec(from, to, xs, ys);
        if d != 0 {
            let ghost acc0 = result@;
            let steps: u64 = (d + 3999) / 4000;
            let vel: u64 = if to.pen {
                DRAW_VELOCITY
            } else {
                TRAVEL_VELOCITY
            };
            let total: u64 = d * 1000 / vel;
            proof {
                lemma_total_vs_steps(d as int, to.pen);
            }
            proof {
                lemma_scaled_base_bounds(from, xs as int, ys as int);
                assert(-4400000000000000int <= (to.x - from.x) * (xs as int) <= 4400000000000000int)
                    by (nonlinear_arith)
                    requires
                        -4294967296 <= to.x - from.x <= 4294967296,
                        0 <= xs as int <= 1000000,
                ;
                assert(-4400000000000000int <= (to.y - from.y) * (ys as int) <= 4400000000000000int)
                    by (nonlinear_arith)
                    requires
                        -4294967296 <= to.y - from.y <= 4294967296,
                        0 <= ys as int <= 1000000,
                ;
            }
            let basex: i64 = from.x as i64 * xs + x as i64 * 1000;
            let basey: i64 = from.y as i64 * ys + y as i64 * 1000;
            let dxm: i64 = (to.x as i64 - from.x as i64) * xs;
            let dym: i64 = (to.y as i64 - from.y as i64) * ys;
            let ghost sub = seg_subpoints(
                from,
                to,
                xs as int,
                ys as int,
                x as int,
                y as int,
                color,
                d as int,
            );
            let mut s: u64 = 1;
            while s <= steps
                invariant
                    1 <= s <= steps + 1,
                    1 <= steps,
                    steps == seg_steps(d as int),
                    total == seg_total_us(d as int, to.pen),
                    0 <= total <= 200 * steps,
                    steps <= 1600000000000,
                    basex == sx(from, xs as int, x as int),
                    basey == sy(from, ys as int, y as int),
                    dxm == (to.x - from.x) * (xs as int),
                    dym == (to.y - from.y) * (ys as int),
                    -2200000000000000 <= basex <= 2200000000000000,
                    -2200000000000000 <= basey <= 2200000000000000,
                    -4400000000000000 <= dxm <= 4400000000000000,
                    -4400000000000000 <= dym <= 4400000000000000,
                    sub == seg_subpoints(
                        from,
                        to,
                        xs as int,
                        ys as int,
                        x as int,
                        y as int,
                        color,
                        d as int,
                    ),
                    sub.len() == steps,
                    result@ =~= acc0 + sub.take(s - 1),
                decreases steps + 1 - s,
            {
                let xm = interp_milli(basex, dxm, s, steps);
                let ym = interp_milli(basey, dym, s, steps);
                proof {
                    lemma_mul_u64_fits_u128(total as int, s as int);
                    lemma_mul_u64_fits_u128(total as int, s - 1);
                }
                let pc_cur: u128 = (total as u128) * (s as u128) / (steps as u128);
                let pc_prev: u128 = (total as u128) * ((s - 1) as u128) / (steps as u128);
                proof {
                    lemma_mul_inequality((s - 1) as int, s as int, total as int);
                    lemma_mul_is_commutative((s - 1) as int, total as int);
                    lemma_mul_is_commutative(s as int, total as int);
                    lemma_div_is_ordered(
                        (total as int) * ((s - 1) as int),
                        (total as int) * (s as int),
                        steps as int,
                    );
                    lemma_piece_bound(total as int, steps as int, s as int);
                }
                let pc: u64 = (pc_cur - pc_prev) as u64;
                let delay: u16 = crate::numeric::clamp_u64_to_u16(pc, DT_MIN, DT_MAX);
                proof {
                    assert(pc as int == piece(total as int, steps as int, s as int));
                    assert(delay as int == clamp_piece(piece(total as int, steps as int, s as int)));
                    assert(sub[s - 1] == Point {
                        x: dac_milli(
                            scaled_interp(
                                sx(from, xs as int, x as int),
                                dxm as int,
                                s as int,
                                steps as int,
                            ),
                        ),
                        y: dac_milli(
                            scaled_interp(
                                sy(from, ys as int, y as int),
                                dym as int,
                                s as int,
                                steps as int,
                            ),
                        ),
                        color: if to.pen {
                            color
                        } else {
                            (0u8, 0u8, 0u8)
                        },
                        delay: clamp_piece(piece(total as int, steps as int, s as int)) as u16,
                    });
                    assert(sub.take(s as int) =~= sub.take(s - 1).push(sub[s - 1]));
                }
                result.push(
                    Point {
                        x: dac_from_milli(xm),
                        y: dac_from_milli(ym),
                        color: if to.pen {
                            color
                        } else {
                            (0u8, 0u8, 0u8)
                        },
                        delay,
                    },
                );
                s = s + 1;
            }
            proof {
                assert(result@ =~= acc0 + sub);
            }
            let ghost dw = if i + 1 < strokes@.len() {
                corner_dwell(from, to, strokes@[i + 1], xs as int, ys as int, x as int, y as int, color)
            } else {
                Seq::<Point>::empty()
            };
            if i + 1 < strokes.len() {
                match corner_dwell_exec(from, to, strokes[i + 1], xs, ys, x, y, color) {
                    Some(p) => {
                        result.push(p);
                    },
                    None => {},
                }
            }
            proof {
                assert(result@ =~= acc0 + sub + dw);
            }
        }
        i = i + 1;
    }
    result
}

/// The product of two 64-bit values fits 128 bits.
proof fn lemma_mul_u64_fits_u128(a: int, b: int)
    requires
        0 <= a <= 0xffffffffffffffff,
        0 <= b <= 0xffffffffffffffff,
    ensures
        0 <= a * b < 0x100000000000000000000000000000000,
{
    assert(0 <= a * b <= 0xffffffffffffffff * 0xffffffffffffffff) by (nonlinear_arith)
        requires 0 <= a <= 0xffffffffffffffff, 0 <= b <= 0xffffffffffffffff;
}

/// The scaled origin position of a stroke point stays within the
/// interpolation helper's range.
proof fn lemma_scaled_base_bounds(p: font::Point, xs: int, ys: int)
    requires
        0 <= xs <= 1000000,
        0 <= ys <= 1000000,
    ensures
        -2147483648000000 <= p.x * xs <= 2147483648000000,
        -2147483648000000 <= p.y * ys <= 2147483648000000,
{
    assert(-2147483648000000 <= p.x * xs <= 2147483648000000) by (nonlinear_arith)
        requires -2147483648 <= p.x <= 2147483647, 0 <= xs <= 1000000;
    assert(-2147483648000000 <= p.y * ys <= 2147483648000000) by (nonlinear_arith)
        requires -2147483648 <= p.y <= 2147483647, 0 <= ys <= 1000000;
}

/// Lay a text out with the stroke font and synthesize its timed path:
/// rendering, scaling about the given origin, subdivision and timing in
/// one call.
pub fn text_to_path(
    renderer: &font::HersheyRenderer,
    text: &[u8],
    x: u8,
    y: u8,
    x_scale_milli: u32,
    y_scale_milli: u32,
    color: (u8, u8, u8),
    mapping: &font::FontMapping,
) -> (r: Vec<Point>)
    requires
        renderer.wf(),
        mapping.wf(),
        text@.len() <= 8000000,
        x_scale_milli <= MAX_SCALE_MILLI,
        y_scale_milli <= MAX_SCALE_MILLI,
    ensures
        r@ == spec_synthesize(
            font::spec_render(renderer.model(), mapping.model(), text@),
            x_scale_milli as int,
            y_scale_milli as int,
            x as int,
            y as int,
            color,
        ),
{
    let strokes = renderer.render_text(text, mapping);
    synthesize(&strokes, x, y, x_scale_milli, y_scale_milli, color)
}

/// The running delay sum over a segment's sub-point prefix matches the
/// running piece sum.
proof fn lemma_sum_delays_take(
    from: font::Point,
    to: font::Point,
    xs: int,
    ys: int,
    ox: int,
    oy: int,
    color: (u8, u8, u8),
    d: int,
    m: int,
)
    requires
        d > 0,
        0 <= m <= seg_steps(d),
    ensures
        sum_delays(seg_subpoints(from, to, xs, ys, ox, oy, color, d).take(m)) == sum_pieces(
            seg_total_us(d, to.pen),
            seg_steps(d),
            m,
        ),
    decreases m,
{
    let sub = seg_subpoints(from, to, xs, ys, ox, oy, color, d);
    let steps = seg_steps(d);
    let total = seg_total_us(d, to.pen);
    if m == 0 {
        assert(sub.take(0) =~= Seq::<Point>::empty());
    } else {
        lemma_sum_delays_take(from, to, xs, ys, ox, oy, color, d, m - 1);
        lemma_total_vs_steps(d, to.pen);
        assert(sub.take(m).drop_last() =~= sub.take(m - 1));
        assert(sub.take(m).last() == sub[m - 1]);
        lemma_piece_bound(total, steps, m);
        assert(clamp_piece(piece(total, steps, m)) == piece(total, steps, m));
    }
}

} // verus!
