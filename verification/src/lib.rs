//! A cave-grid model and a falling-sand simulation.
//!
//! Rock formations are parsed from a textual polyline description into a
//! bounded two-dimensional grid.  Grains of sand then fall one cell per tick
//! from a fixed source, sliding down-left or down-right when blocked, until
//! they settle, fall out of the open bottom, or block the source itself.
//! Each tick reports its effects as a list of events, so that any
//! presentation layer can render the state without being part of the core.

pub mod grid;
pub mod parse;
pub mod sim;
