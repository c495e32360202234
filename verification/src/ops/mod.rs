//! The import of the nodes of a model, one function for each operation.

pub mod activation;
pub mod axes;
pub mod constant;
pub mod elementwise;
pub mod gather;
pub mod layout;
pub mod matrix;
pub mod normalize;
pub mod pieces;
pub mod select;
