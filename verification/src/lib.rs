//! Exact fixed-point decimal arithmetic on a 256-bit magnitude, together with
//! the score/penalty/pricing computations of a multi-asset basket instrument.
//!
//! All arithmetic is integer arithmetic on wide unsigned magnitudes with an
//! explicit sign, so that independent evaluators agree bit for bit.

pub mod distribution;
pub mod error;
pub mod exp;
pub mod fp;
pub mod laws;
pub mod hyper;
pub mod msg;
pub mod penalty;
pub mod pricing;
pub mod querier;
pub mod u256;
pub mod util;
pub mod vector;
