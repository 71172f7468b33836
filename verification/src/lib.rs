//! A directed graphical probability model: nodes with outcome values, parent
//! edges kept free of cycles, and conditional probability tables whose shape
//! follows the values of a node and of its parents.

pub mod table;
pub mod ids;
pub mod model;
pub mod paths;
pub mod search;
pub mod edits;
pub mod graph;
pub mod order;
pub mod json;
pub mod engine;
