//! The room cell: the verified core of a perception/prediction cell.
//!
//! `uuid` generates and prints the cell's identifiers, `cycle` holds the
//! integer decisions of the tick cycle (prediction window, vibe sampling,
//! surprise ranking, garbage collection, conservation).
pub mod cycle;
pub mod uuid;
