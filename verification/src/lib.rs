//! Verified data-preparation and evaluation logic for tabular machine-learning
//! experiments: splitting and cleaning delimited text records, encoding
//! categorical columns, k-fold cross-validation splits, bootstrap sampling,
//! majority voting and accuracy counting.

pub mod text;
pub mod vote;
pub mod metrics;
pub mod folds;
pub mod encoder;
pub mod table;
pub mod classes;
pub mod sampling;
pub mod csv_table;
