//! Exact per-cache video selection for a network of edge caches.
//!
//! Every cache picks, among the requests it would serve, the set of videos
//! that saves the most latency without exceeding its storage capacity: a 0/1
//! knapsack solved by dynamic programming over the achieved latency gain.

pub mod cell;
pub mod item;
pub mod knapsack;
pub mod text;
pub mod input;
pub mod solver;
pub mod builder;
pub mod output;
pub mod assign;

pub use crate::input::{Connection, Endpoint, Input, Request};
pub use crate::output::{Cache, Output};
