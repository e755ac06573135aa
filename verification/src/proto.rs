//! The serial command boundary's data shapes: the device-side point with
//! a packed color mask, and the command and response records exchanged
//! over the wire. The framing itself lives with the transport.

use vstd::prelude::*;

verus! {

/// A device-side output point: DAC position, hold time, and a packed
/// color bit mask.
#[derive(Clone, Copy, Debug, PartialEq, Eq, Structural)]
pub struct Point {
    pub x: u8,
    pub y: u8,
    pub delay: u16,
    pub color: u8,
}

/// The red channel bit of a packed color mask.
pub const COLOR_RED: u8 = 0b0001;

/// The green channel bit of a packed color mask.
pub const COLOR_GREEN: u8 = 0b0010;

/// The blue channel bit of a packed color mask.
pub const COLOR_BLUE: u8 = 0b0100;

/// A command received over the serial boundary.
pub enum Command {
    /// Set the indicator light to the given color.
    SetIndicatorLight { r: u8, g: u8, b: u8 },
    /// Replace the output waveform with the given points.
    SetWaveform { points: Vec<Point> },
}

/// The reply to a command.
#[derive(Clone, Copy, Debug, PartialEq, Eq, Structural)]
pub struct Response {
    pub success: bool,
}

} // verus!
