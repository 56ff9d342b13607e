//! One level of an identifier path.

use crate::wire::WireError;
use vstd::bytes::{spec_u32_to_le_bytes, u32_to_le_bytes};
use vstd::prelude::*;

verus! {

/// A single position in an identifier: an integer slot plus the tag of the
/// site that allocated it. Positions are immutable once created.
#[derive(Debug, Clone, Copy, PartialEq, Eq, Structural, Hash)]
pub struct Pos {
    pub ident: u32,
    pub site: u8,
}

/// Strict order on positions: by `ident` ascending, ties broken by `site`.
pub open spec fn pos_lt(a: Pos, b: Pos) -> bool {
    a.ident < b.ident || (a.ident == b.ident && a.site < b.site)
}

/// Non-strict companion of [`pos_lt`].
pub open spec fn pos_le(a: Pos, b: Pos) -> bool {
    pos_lt(a, b) || a == b
}

/// Wire form of one position: the slot as four little-endian bytes, then the
/// site byte.
pub open spec fn pos_bytes(p: Pos) -> Seq<u8> {
    spec_u32_to_le_bytes(p.ident).push(p.site)
}

impl Pos {
    pub fn new(ident: u32, site: u8) -> (r: Pos)
        ensures
            r == (Pos { ident, site }),
    {
        Pos { ident, site }
    }

    /// Append the five wire bytes of this position to `buf`.
    pub fn write_bytes_tobuf(&self, buf: &mut Vec<u8>)
        ensures
            final(buf)@ == old(buf)@ + pos_bytes(*self),
    {
        let mut ident_bytes = u32_to_le_bytes(self.ident);
        buf.append(&mut ident_bytes);
        buf.push(self.site);
        proof {
            assert(buf@ =~= old(buf)@ + pos_bytes(*self));
        }
    }

    /// As [`Pos::write_bytes_tobuf`]; appending to a byte vector cannot fail.
    pub fn write_bytes(&self, buf: &mut Vec<u8>) -> (r: Result<(), WireError>)
        ensures
            r is Ok,
            final(buf)@ == old(buf)@ + pos_bytes(*self),
    {
        self.write_bytes_tobuf(buf);
        Ok(())
    }
}

} // verus!
