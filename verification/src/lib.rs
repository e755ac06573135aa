//! A vector-graphics path pipeline for a laser galvanometer scanner.
//!
//! The crate turns vector content -- stroke-font text, decoded show files,
//! geographic polylines, procedural animations -- into ordered sequences of
//! timed beam positions (`point::Point`), ready for a galvo/DAC output loop.

pub mod point;

pub mod numeric;

pub mod parse;

pub mod font;

pub mod textpath;

pub mod ilda;

pub mod geo;

pub mod chr;

pub mod apps;

pub mod demos;

pub mod proto;
