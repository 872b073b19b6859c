//! A map from keys to values in which every key also carries a weight, with
//! an index from each weight to the keys that currently hold it.
pub mod key;
pub mod laws;
pub mod model;
pub mod weighted;

pub use key::Key;
pub use weighted::WeightedMap;
