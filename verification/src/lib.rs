//! A compressed bitmap for sets of 32-bit unsigned integers.
//!
//! Each element splits into a high 16-bit key and a low 16-bit value. Elements
//! sharing a key live in one container: either a sorted array of `u16` (cheap
//! when sparse) or a fixed 65,536-bit bit-array (cheap when dense). Containers
//! switch representation at a 4,096-element threshold. The bitmap supports
//! point updates, set algebra, ranked access and ordered enumeration, and all
//! of it is specified against a single mathematical view: the strictly
//! ascending sequence of the set's elements.

use vstd::prelude::*;

pub mod seqs;
pub mod bits;
pub mod array;
pub mod bitmap;
pub mod container;
pub mod roaring;
pub mod laws;

pub use crate::array::ArrayContainer;
pub use crate::bitmap::{BitmapContainer, BitmapIterator};
pub use crate::container::Container;
pub use crate::roaring::{RoaringBitmap, RoaringBitmapIter};
