//! The shared output representation: a timed, colored beam position and an
//! ordered sequence of them forming one frame's scan path.

use vstd::prelude::*;

verus! {

/// One output sample for the scanner: an 8-bit DAC position, an RGB color
/// (all-zero means "beam off"), and the hold time in microseconds before the
/// next sample may be emitted.
#[derive(Clone, Copy, Debug, PartialEq, Eq)]
pub struct Point {
    pub x: u8,
    pub y: u8,
    pub color: (u8, u8, u8),
    pub delay: u16,
}

/// The scan path of one frame: points in scan order.
pub type Path = Vec<Point>;

/// The color triple that switches the beam off.
pub const BLANK_COLOR: (u8, u8, u8) = (0, 0, 0);

/// True when two color triples are equal, component by component.
pub fn rgb_eq(a: (u8, u8, u8), b: (u8, u8, u8)) -> (r: bool)
    ensures
        r <==> a == b,
{
    a.0 == b.0 && a.1 == b.1 && a.2 == b.2
}

} // verus!
