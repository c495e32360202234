//! What the operations compute, as numbers at indices.
//!
//! Each law says of the import of a node which number the tensor of its output has
//! at each index, in terms of the numbers that the tensors of its inputs have. Beside
//! these stand the laws of what is refused, of what an import leaves as it was, of how
//! numbers are read and rounded, and of the graph that the tensors become.

pub mod products;
pub mod curves;
pub mod means;
pub mod cuts;
pub mod elements;
pub mod pairs;
pub mod choices;
pub mod layouts;
pub mod finds;
pub mod kinds;
pub mod rounding;
pub mod lowering;
pub mod models;
pub mod effects;
pub mod failures;
pub mod lists;
pub mod encoding;
pub mod refusals;
