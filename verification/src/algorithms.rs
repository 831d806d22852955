//! The two local searches: steepest-descent swaps and 2-opt.

pub mod hillclimb;
pub mod two_opt;
