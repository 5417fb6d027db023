//! A directed-acyclic-graph engine over weighted vertices and edges, together
//! with a small parent/child node graph.

pub mod weight;
pub mod walks;
pub mod dag;
pub mod interface;
pub mod order;
pub mod longest;
pub mod data_struct;
