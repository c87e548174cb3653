//! An empirical birthday-paradox demonstration on truncated SHA-256 digests:
//! draw a batch of random strings, hash each one, keep a short prefix of each
//! digest, and report the prefixes that recur more often than a threshold.

pub mod config;
pub mod counter;
pub mod digest;
pub mod pipeline;
pub mod sampler;
pub mod text;

pub use config::Config;
pub use counter::Collision;
