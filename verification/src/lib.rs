//! Read and write bytes: buffers, readers, writers and the helpers around
//! them, with their behaviour stated as contracts.

use vstd::prelude::*;

pub mod bits;
pub mod range;
pub mod buf;
pub mod bytes;
pub mod confix;
pub mod copy;
pub mod derive;
pub mod io;
mod shared;
pub mod reactor;
pub mod slab;
pub mod util;
pub mod watch;

pub use buf::{Buf, BufMut};
pub use copy::{copy, copy_range};
pub use range::{Range, RangeOutOfBounds};

verus! {

/// The error returned when an index lies outside the bounds of a buffer.
#[derive(Clone, Copy, Debug, PartialEq, Eq)]
pub struct IndexOutOfBounds {
    pub required: usize,
    pub bounds: (usize, usize),
}

} // verus!
