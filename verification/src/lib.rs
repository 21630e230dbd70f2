//! Verified core of a saturable-gain laser amplifier sweep calculator.
//!
//! The library owns everything about the sweep that can be stated and
//! proved over plain values: parsing the input-power list and the laser
//! configuration lines, the fixed saturation-intensity grid, the shape of
//! the result table planned for each laser, the rejection of zero input
//! powers before any integration, and the aggregation of per-laser
//! outcomes. The floating-point beam-propagation kernel itself and all
//! file handling live outside the library.

pub mod config;
pub mod dispatch;
pub mod grid;
pub mod powers;
pub mod sweep;
pub mod text;
