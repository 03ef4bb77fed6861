//! Genetic search for light total Roman domination labelings of undirected graphs.
//!
//! A labeling gives every vertex one of the labels 0, 1 and 2. It is a total Roman
//! domination labeling when every vertex labeled 0 has a neighbor labeled 2 and every
//! vertex labeled 1 or 2 has a neighbor with a positive label. The weight of a labeling
//! is the sum of its labels; the search looks for a labeling of small weight.
//!
//! The module `graph` holds the graphs and the reading of edge lists, the module
//! `genetic` the labelings, the seed heuristics, the populations and the search itself,
//! and the module `random` the draws from the `rand` crate that the search is built on.

pub mod genetic;
pub mod graph;
pub mod random;
