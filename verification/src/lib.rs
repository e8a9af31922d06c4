//! Heat diffusion on graphs: the verified structural core.
//!
//! - `graph`: undirected weighted graph as adjacency lists, with a Laplacian
//!   cache that every structural change clears;
//! - `adjacency`: the mathematical model of those lists and the laws that
//!   adding and removing edges obey;
//! - `generators`: unit-weight adjacency patterns of the classic families;
//! - `error`: the error type and the argument checks that decide which error
//!   a request is refused with;
//! - `matrix`: index bookkeeping of the eigendecomposition.
//!
//! Weights are a type parameter, so the numeric scalar is chosen by the caller.

pub mod adjacency;
pub mod error;
pub mod generators;
pub mod graph;
pub mod matrix;

pub use error::HeatError;
pub use generators::{barbell_graph, complete_graph, cycle_graph, path_graph, star_graph};
pub use graph::Graph;
