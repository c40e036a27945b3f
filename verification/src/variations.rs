//! Variations of binary search.

pub mod exponential_search;
pub mod interpolation_search;
pub mod uniform;

pub use exponential_search::exponential_search;
pub use interpolation_search::{interpolation_search, linear_interpolation_search};
pub use uniform::UniformBinarySearch;
