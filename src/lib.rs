//! Minimum-cost alignment of two sequences under caller-supplied costs.
//!
//! `merge` turns a sequence `xs` into a sequence `ys` by an ordered script of
//! edit operations (`Merged`), choosing the script of least total cost by a
//! dynamic-programming table. The table, the choice made at each cell and the
//! script read back from it are stated as spec functions in `model`; the laws
//! that the script obeys are proved in `laws`.
pub mod merged;
pub mod model;
pub mod costs;
pub mod align;
pub mod laws;

pub use merged::Merged;
pub use costs::{constant_cost1, constant_cost2};
pub use align::merge;
