//! H3 index types.
use vstd::prelude::*;

pub mod bits;
pub mod bitvec;
pub mod iterator;
pub mod mode;
pub mod display;

pub use iterator::{Children, Gosper};
pub use mode::IndexMode;
pub mod cell;
pub use cell::CellIndex;
pub mod rank;
pub mod position;
pub mod uncompact;
pub mod order;
pub mod count;
pub mod compact;
pub mod edge;
pub use edge::{DirectedEdgeIndex, Edge};
pub mod vertex;
pub use vertex::{Vertex, VertexIndex};


