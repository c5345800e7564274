//! An evolutionary program-synthesis engine for a minimal register machine.
//!
//! A population of small programs is evolved, by mutation and recombination,
//! to predict from a partial word which letters can legally follow it, as
//! judged against a corpus-derived prefix oracle.

pub mod evolve;
pub mod fchar;
pub mod fitness;
pub mod genetics;
pub mod oracle;
pub mod rng;
pub mod svm;
