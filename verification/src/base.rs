//! Index boxes, their enumeration, dense arrays over them, and grids.

pub mod array_nd;
pub mod face_array;
pub mod grid;
pub mod grid_iterators;
pub mod range;
pub mod row_major;
pub mod vec_ext;

pub use array_nd::{ArrayNd, ArrayNdCreationError};
pub use face_array::{FaceArray, FaceIndex};
pub use grid::{FaceIterator, Grid};
pub use grid_iterators::RangeIterator;
pub use range::Range;
pub use vec_ext::{IntoVec, VecExtPartialOrd};
