//! Whose memory it is.

use vstd::prelude::*;

verus! {

/// The part of an address space.
#[derive(Clone, Copy, PartialEq, Eq, Structural, Debug)]
pub enum MemorySpace {
    Kernel,
    User,
}

} // verus!
