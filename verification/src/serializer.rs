//! Choice of snapshot encoding for peer frames. Only the native binary
//! form is verified here; the generic formats are handled by the
//! unverified runtime around the library.

use vstd::prelude::*;

verus! {

/// Which encoding a connection speaks.
#[derive(Debug, Clone, Copy, PartialEq, Eq, Structural)]
pub enum SerializeFormat {
    Bincode,
    MsgPack,
    Mine,
}

/// A connection's chosen encoding.
#[derive(Debug, Clone, Copy, PartialEq, Eq, Structural)]
pub struct Serializer {
    pub format: SerializeFormat,
}

impl Serializer {
    pub fn new(format: SerializeFormat) -> (r: Serializer)
        ensures
            r.format == format,
    {
        Serializer { format }
    }
}

} // verus!
