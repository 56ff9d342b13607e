//! Core of a collaborative text editor: a sequence CRDT over totally ordered
//! fractional identifiers, the binary wire protocol that carries operations
//! and snapshots between sites, and the state manager that owns every open
//! document.

pub mod doc;
pub mod editor;
pub mod events;
pub mod martree;
pub mod msg;
pub mod pid;
pub mod serializer;
pub mod session;
pub mod sync;
pub mod pos;
pub mod state;
pub mod wire;

use vstd::prelude::*;

verus! {

/// Largest identifier value at one level of a path; the end sentinel of every
/// document sits at `[(LBASE, 0)]`.
pub const LBASE: u32 = u32::MAX;

} // verus!
