//! Nearest-neighbour classification of labelled integer feature vectors.
//!
//! A training set of observations and a distance metric make a classifier,
//! which labels a query with the label of the first training observation at
//! the least distance. An evaluation runs a classifier over a validation set
//! and counts the predictions that match.

pub mod distance;
pub mod error;
pub mod observation;
pub mod classifier;
pub mod evaluation;
pub mod record;
