//! Retrograde analysis of Tokyo Doves positions: the 64-bit position codec,
//! the partition filters, the directory layout, the set algebra of each
//! phase of one analysis step, and the dove shapes from which the positions
//! lost in two plies are enumerated.

pub mod board_set;
pub mod config;
pub mod filter_maker;
pub mod game;
pub mod hashutil;
pub mod lose2;
pub mod path_factory;
pub mod phases;
