//! An in-memory vector similarity search engine.
//!
//! A [`Collection`] stores feature vectors under 128-bit identifiers and
//! answers nearest-neighbour queries: it scores every stored vector that has
//! as many components as the request, ranks the scores in descending order and
//! hands back the best `k`. A [`BaseDeDonnees`] keeps several collections
//! apart by name.
//!
//! How similar two vectors are is decided by a function that the caller hands
//! to the search, cosine similarity as a rule. The library calls it on pairs
//! of equal length alone. It returns a [`Score`]: a single-precision
//! floating-point number held by its bit pattern, whose order the library
//! states over the integers and proves its ranking against.

pub mod collection;
pub mod ranking;
pub mod registry;
pub mod score;

pub use collection::Collection;
pub use ranking::ScoredResult;
pub use registry::BaseDeDonnees;
pub use score::Score;
