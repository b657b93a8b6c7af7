//! A constraint-propagation tile synthesizer: the wave-function-collapse
//! algorithm over a possibility store, a frequency model, an entropy-guided
//! selection heuristic, and per-item adjacency rules, together with the
//! grid, rotation, and tile-set adapters that feed it.

pub mod domain;
pub mod entropy;
pub mod freq;
pub mod grid;
pub mod instance;
pub mod rels;
pub mod symmetry;
pub mod tiles;
pub mod util;
pub mod wfc;

pub use grid::Grid;
pub use instance::Instance;
pub use symmetry::Rot;
pub use wfc::WaveFunctionCollapse;
