//! An approximate Euclidean travelling-salesman solver.
//!
//! A tour is built in two phases: a Christofides-style construction
//! (minimum spanning tree, greedy matching of odd-degree vertices,
//! Eulerian circuit, Hamiltonian shortcutting) followed by a 2-opt
//! local search.  Coordinates are fixed-point integers, so every
//! distance is a Euclidean length rounded up to an integer, which keeps the triangle inequality and all tour
//! costs are exact machine integers.

pub mod christofides;
pub mod distance;
pub mod errors;
pub mod graph;
pub mod pipeline;
pub mod tour;
pub mod two_opt;
