//! Lazy enumeration of every string over a fixed alphabet, shortest first.

pub mod enumerator;
pub mod error;
pub mod laws;
pub mod order;
pub mod radix;
pub mod text;

pub use enumerator::Brute;
pub use error::BruteError;
