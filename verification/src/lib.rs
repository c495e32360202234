//! An importer for ONNX models: it reads a model, translates its nodes into a
//! graph of tensor operations, computes ahead of time what is already known, and
//! hands the graph over to `luminal`.

pub mod bits;
pub mod compose;
pub mod decode;
pub mod fold;
pub mod graph;
pub mod laws;
pub mod lower;
pub mod model;
pub mod names;
pub mod nodes;
pub mod ops;
pub mod parts;
pub mod proto;
pub mod reading;
pub mod runtime;
pub mod shape;
pub mod state;
pub mod values;
pub mod wire;
