//! Wave Function Collapse on a toroidal grid: tile learning, adjacency rules,
//! constraint propagation and entropy-guided collapse, with machine-checked
//! contracts.
//!
//! From a small source image the library learns the square tiles that occur
//! in it, how often each occurs, and which tile may lie beside which
//! ([`wfc::WFCParameters`]). A grid is then generated cell by cell
//! ([`superposition::SuperpositionField`]): every cell starts with all tiles
//! possible; each step settles one cell of lowest entropy on one tile and
//! propagates what follows for its neighbours ([`propagation::propagate`]).
//! A step ends in a contradiction when a cell is left without a tile; the
//! field is then to be reset.

pub mod compose;
pub mod entropy;
pub mod error;
pub mod field;
pub mod image_data;
pub mod library;
pub mod propagation;
pub mod random;
pub mod rules;
pub mod superposition;
pub mod tile;
pub mod wfc;
