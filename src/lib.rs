//! Incremental keyword ranking over a stream of short messages.
//!
//! Each message is cleaned to letters and spaces, split into words, weighted
//! against what earlier messages taught, ranked, and merged into a running
//! store of word weights that is keyed case-insensitively.

pub mod config;
pub mod text;
pub mod store;
pub mod rank;
pub mod weights;
pub mod engine;

pub use config::{Configuration, Weight};
pub use engine::Ssage;
