//! Iterators over index hierarchies.
use vstd::prelude::*;

pub mod children;
pub mod gosper;

pub use children::Children;
pub use gosper::Gosper;
