//! The per-operation context: the byte order chosen for one encode or
//! decode call chain.

use vstd::prelude::*;

use crate::endian::Endianness;

verus! {

/// The byte order chosen for one whole encode or decode operation.
///
/// A context is created once per operation and never changes afterwards:
/// every multi-byte primitive conversion within the operation reads the
/// same context.
#[derive(Clone, Copy, Debug)]
pub struct Context {
    pub endian: Endianness,
}

impl Context {
    pub fn new(endian: Endianness) -> (r: Self)
        ensures
            r.endian == endian,
    {
        Self { endian }
    }
}

} // verus!
