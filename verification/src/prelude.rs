//! The names that most users need.

pub use crate::MarkovLanguageGenerator;
