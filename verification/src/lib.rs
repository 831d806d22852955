//! Local-search heuristics for the travelling salesman problem, the distance
//! between the tours they find, and the bookkeeping of random-restart
//! sampling: executable code with machine-checked contracts.

pub mod algorithms;
pub mod collections;
pub mod counting;
pub mod drawing;
pub mod exchanges;
pub mod generator;
pub mod helpers;
pub mod model;
pub mod optima;
pub mod parsers;
pub mod permutation;
pub mod rearrange;
pub mod rng;
pub mod sampler;
pub mod stats;
pub mod summation;
pub mod text;
