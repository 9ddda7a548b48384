//! Per-position read depth over a genomic window, computed from aligned
//! reads, with the rules that a terminal coverage viewer needs around it.

pub mod blocks;
pub mod cli;
pub mod cov;
pub mod depth;
pub mod record;
pub mod region;
pub mod text;
pub mod tui;
