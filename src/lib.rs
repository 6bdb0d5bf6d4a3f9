//! Incremental procedural map generation on a square grid: a row-major
//! height-sampling queue, a multi-seed region-growth tiler, a two-way
//! bisection tiler, and a lateral-only grid pathfinder used to carve rivers.
//! Every generator does bounded work per call and draws its randomness from
//! one seeded generator that the caller threads through.

pub mod grid;
pub mod cellset;
pub mod random;
pub mod regions;
pub mod heightmap;
pub mod pathfind;
pub mod rivers;
pub mod bisection;
