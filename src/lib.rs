pub mod decode;
pub mod error;
pub mod laws;
pub mod pattern;
pub mod source;
pub mod strategy;
