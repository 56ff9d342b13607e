//! Synchronization messages: listing documents by last-modified time,
//! shipping full snapshots, and the operations applied to a document.

use crate::doc::{
    atom_bytes, dec_atoms, doc_bytes, lemma_dec_atoms_round_trip, lemma_delete_delete_commute,
    lemma_delete_idempotent, lemma_doc_round_trip, lemma_insert_delete_commute,
    lemma_insert_insert_commute, lemma_records_map, map_of_records, sentinels_ok, Doc,
};
use crate::pid::{pid_body_bytes, Pid};
use crate::pos::Pos;
use crate::wire::{
    char_field_bytes, lemma_no_newline_in_utf8, lemma_split_at_nl_round_trip, read_line_field,
    read_u128, read_u64, read_u8, split_at_nl, write_char_field, write_u128, write_u64, WireError,
};
use vstd::bytes::{
    spec_u128_from_le_bytes, spec_u128_to_le_bytes, spec_u64_from_le_bytes, spec_u64_to_le_bytes,
};
use vstd::prelude::*;
use vstd::utf8::{decode_utf8, encode_utf8, valid_utf8};

verus! {

/// A synchronization request from a client.
#[derive(Debug, Clone, Copy, PartialEq, Eq, Structural)]
pub enum SyncRequests {
    SyncList { last_sync_time: u64 },
    SyncDoc { last_sync_time: u64, document_id: u128 },
}

/// One listing entry: when a document last changed, and its identity.
#[derive(Debug, Clone, Copy, PartialEq, Eq, Structural)]
pub struct DocSyncInfo {
    pub last_mod_time: u64,
    pub document_id: u128,
}

/// A synchronization response from the state manager.
#[derive(Debug, Clone)]
pub enum SyncResponses {
    SyncList(Vec<DocSyncInfo>),
    SyncDoc { document_id: u128, name: String, doc: Doc },
}

/// One operation on a document's contents.
#[derive(Debug, Clone)]
pub enum DocOp {
    Insert(Pid, char),
    Delete(Pid),
}

/// Wire form of a synchronization request.
pub open spec fn sync_req_bytes(r: SyncRequests) -> Seq<u8> {
    match r {
        SyncRequests::SyncList { last_sync_time } => seq![0u8] + spec_u64_to_le_bytes(
            last_sync_time,
        ),
        SyncRequests::SyncDoc { last_sync_time, document_id } => seq![1u8] + spec_u64_to_le_bytes(
            last_sync_time,
        ) + spec_u128_to_le_bytes(document_id),
    }
}

/// Decode a synchronization request.
pub open spec fn sync_req_dec(bs: Seq<u8>) -> Option<SyncRequests> {
    if bs.len() < 1 {
        Option::None
    } else if bs[0] == 0 {
        if bs.len() < 9 {
            Option::None
        } else {
            Option::Some(
                SyncRequests::SyncList {
                    last_sync_time: spec_u64_from_le_bytes(bs.subrange(1, 9)),
                },
            )
        }
    } else if bs[0] == 1 {
        if bs.len() < 25 {
            Option::None
        } else {
            Option::Some(
                SyncRequests::SyncDoc {
                    last_sync_time: spec_u64_from_le_bytes(bs.subrange(1, 9)),
                    document_id: spec_u128_from_le_bytes(bs.subrange(9, 25)),
                },
            )
        }
    } else {
        Option::None
    }
}

/// Decoding an encoded synchronization request yields it back.
pub proof fn lemma_sync_req_round_trip(r: SyncRequests)
    ensures
        sync_req_dec(sync_req_bytes(r)) == Option::Some(r),
{
    vstd::bytes::lemma_auto_spec_u64_to_from_le_bytes();
    vstd::bytes::lemma_auto_spec_u128_to_from_le_bytes();
    let bs = sync_req_bytes(r);
    match r {
        SyncRequests::SyncList { last_sync_time } => {
            let le = spec_u64_to_le_bytes(last_sync_time);
            assert(bs.subrange(1, 9) =~= le) by {
                assert forall|j: int| 0 <= j < 8 implies #[trigger] bs.subrange(1, 9)[j]
                    == le[j] by {
                    assert(bs.subrange(1, 9)[j] == bs[1 + j]);
                }
                assert(bs.subrange(1, 9).len() == 8);
            }
        },
        SyncRequests::SyncDoc { last_sync_time, document_id } => {
            let le = spec_u64_to_le_bytes(last_sync_time);
            let li = spec_u128_to_le_bytes(document_id);
            let head = seq![1u8] + le;
            assert(bs.subrange(1, 9) =~= le) by {
                assert forall|j: int| 0 <= j < 8 implies #[trigger] bs.subrange(1, 9)[j]
                    == le[j] by {
                    assert(bs.subrange(1, 9)[j] == bs[1 + j]);
                    assert(bs[1 + j] == head[1 + j]);
                }
                assert(bs.subrange(1, 9).len() == 8);
            }
            assert(bs.subrange(9, 25) =~= li) by {
                assert forall|j: int| 0 <= j < 16 implies #[trigger] bs.subrange(9, 25)[j]
                    == li[j] by {
                    assert(bs.subrange(9, 25)[j] == bs[9 + j]);
                }
                assert(bs.subrange(9, 25).len() == 16);
            }
        },
    }
}

impl SyncRequests {
    /// Decode a request frame; every malformed frame yields a typed
    /// error.
    pub fn deserialize(buf: &Vec<u8>) -> (r: Result<SyncRequests, WireError>)
        ensures
            r is Ok <==> sync_req_dec(buf@) is Some,
            r is Ok ==> r->Ok_0 == sync_req_dec(buf@)->0,
    {
        let mut i: usize = 0;
        let op = match read_u8(buf, &mut i) {
            Ok(v) => v,
            Err(e) => {
                return Err(e);
            },
        };
        if op == 0 {
            let last_sync_time = match read_u64(buf, &mut i) {
                Ok(v) => v,
                Err(e) => {
                    return Err(e);
                },
            };
            proof {
                assert(buf@.subrange(1, 9) =~= buf@.subrange(1int, 9int));
            }
            Ok(SyncRequests::SyncList { last_sync_time })
        } else if op == 1 {
            let last_sync_time = match read_u64(buf, &mut i) {
                Ok(v) => v,
                Err(e) => {
                    return Err(e);
                },
            };
            let document_id = match read_u128(buf, &mut i) {
                Ok(v) => v,
                Err(e) => {
                    return Err(e);
                },
            };
            proof {
                assert(buf@.subrange(1, 9) =~= buf@.subrange(1int, 9int));
                assert(buf@.subrange(9, 25) =~= buf@.subrange(9int, 25int));
            }
            Ok(SyncRequests::SyncDoc { last_sync_time, document_id })
        } else {
            Err(WireError::BadOpcode)
        }
    }

    /// Encode this request into its wire form.
    pub fn serialize(&self) -> (r: Vec<u8>)
        ensures
            r@ == sync_req_bytes(*self),
    {
        match self {
            SyncRequests::SyncList { last_sync_time } => {
                let mut buf: Vec<u8> = Vec::new();
                buf.push(0u8);
                write_u64(&mut buf, *last_sync_time);
                proof {
                    assert(buf@ =~= sync_req_bytes(*self));
                }
                buf
            },
            SyncRequests::SyncDoc { last_sync_time, document_id } => {
                let mut buf: Vec<u8> = Vec::new();
                buf.push(1u8);
                write_u64(&mut buf, *last_sync_time);
                write_u128(&mut buf, *document_id);
                proof {
                    assert(buf@ =~= sync_req_bytes(*self));
                }
                buf
            },
        }
    }
}

impl DocSyncInfo {
    pub fn new(last_mod_time: u64, document_id: u128) -> (r: DocSyncInfo)
        ensures
            r == (DocSyncInfo { last_mod_time, document_id }),
    {
        DocSyncInfo { last_mod_time, document_id }
    }
}

/// Wire form of a run of listing entries.
pub open spec fn list_entries_bytes(s: Seq<DocSyncInfo>) -> Seq<u8>
    decreases s.len(),
{
    if s.len() == 0 {
        Seq::empty()
    } else {
        spec_u64_to_le_bytes(s[0].last_mod_time) + spec_u128_to_le_bytes(s[0].document_id)
            + list_entries_bytes(s.drop_first())
    }
}

/// Wire form of a synchronization response.
pub open spec fn sync_resp_bytes(r: SyncResponses) -> Seq<u8> {
    match r {
        SyncResponses::SyncList(docs) => seq![32u8] + spec_u64_to_le_bytes(docs@.len() as u64)
            + list_entries_bytes(docs@),
        SyncResponses::SyncDoc { document_id, name, doc } => seq![33u8] + spec_u128_to_le_bytes(
            document_id,
        ) + encode_utf8(name@) + seq![10u8] + spec_u64_to_le_bytes(doc.atoms@.len() as u64)
            + doc_bytes(doc.atoms@) + spec_u64_to_le_bytes(0),
    }
}

impl SyncResponses {
    /// Encode this response into `w`.
    pub fn serialize_into(&self, w: &mut Vec<u8>) -> (r: Result<(), WireError>)
        requires
            match *self {
                SyncResponses::SyncDoc { document_id, name, doc } => crate::doc::depths_ok(
                    doc.atoms@,
                ),
                _ => true,
            },
        ensures
            r is Ok,
            final(w)@ == old(w)@ + sync_resp_bytes(*self),
    {
        match self {
            SyncResponses::SyncList(docs) => {
                w.push(32u8);
                write_u64(w, docs.len() as u64);
                let n = docs.len();
                let mut j: usize = 0;
                while j < n
                    invariant
                        n == docs@.len(),
                        0 <= j <= n,
                        w@ == old(w)@ + (seq![32u8] + spec_u64_to_le_bytes(docs@.len() as u64)
                            + list_entries_bytes(docs@.subrange(0, j as int))),
                    decreases n - j,
                {
                    let e = docs[j];
                    write_u64(w, e.last_mod_time);
                    write_u128(w, e.document_id);
                    proof {
                        lemma_list_entries_concat(
                            docs@.subrange(0, j as int),
                            docs@.subrange(j as int, j + 1),
                        );
                        assert(docs@.subrange(0, j + 1) =~= docs@.subrange(0, j as int)
                            + docs@.subrange(j as int, j + 1));
                        let one = docs@.subrange(j as int, j + 1);
                        assert(one[0] == docs@[j as int]);
                        assert(one.drop_first() =~= Seq::<DocSyncInfo>::empty());
                        assert(list_entries_bytes(Seq::<DocSyncInfo>::empty())
                            =~= Seq::<u8>::empty());
                        assert(list_entries_bytes(one) =~= spec_u64_to_le_bytes(
                            docs@[j as int].last_mod_time,
                        ) + spec_u128_to_le_bytes(docs@[j as int].document_id));
                        assert(w@ =~= old(w)@ + (seq![32u8] + spec_u64_to_le_bytes(
                            docs@.len() as u64,
                        ) + list_entries_bytes(docs@.subrange(0, j + 1))));
                    }
                    j = j + 1;
                }
                proof {
                    assert(docs@.subrange(0, n as int) =~= docs@);
                }
                Ok(())
            },
            SyncResponses::SyncDoc { document_id, name, doc } => {
                w.push(33u8);
                write_u128(w, *document_id);
                let mut nb = name.as_str().as_bytes_vec();
                w.append(&mut nb);
                w.push(10u8);
                write_u64(w, doc.len() as u64);
                doc.write_bytes_tobuf(w);
                write_u64(w, 0);
                proof {
                    assert(w@ =~= old(w)@ + sync_resp_bytes(*self));
                }
                Ok(())
            },
        }
    }
}

/// Splitting a run of listing entries splits its bytes.
pub proof fn lemma_list_entries_concat(s1: Seq<DocSyncInfo>, s2: Seq<DocSyncInfo>)
    ensures
        list_entries_bytes(s1 + s2) == list_entries_bytes(s1) + list_entries_bytes(s2),
    decreases s1.len(),
{
    if s1.len() == 0 {
        assert(s1 + s2 =~= s2);
        assert(list_entries_bytes(s1) + list_entries_bytes(s2) =~= list_entries_bytes(s2));
    } else {
        assert((s1 + s2).drop_first() =~= s1.drop_first() + s2);
        lemma_list_entries_concat(s1.drop_first(), s2);
        assert(list_entries_bytes(s1 + s2) =~= list_entries_bytes(s1) + list_entries_bytes(s2));
    }
}

/// Wire form of one document operation: opcode, payload, identifier with
/// its depth prefix.
pub open spec fn doc_op_bytes(op: DocOp) -> Seq<u8> {
    match op {
        DocOp::Insert(pid, c) => seq![0u8] + char_field_bytes(c) + (seq![pid@.len() as u8]
            + pid_body_bytes(pid@)),
        DocOp::Delete(pid) => seq![1u8] + (seq![pid@.len() as u8] + pid_body_bytes(pid@)),
    }
}

impl DocOp {
    /// The identifier the operation targets.
    pub open spec fn target(self) -> Seq<Pos> {
        match self {
            DocOp::Insert(pid, c) => pid@,
            DocOp::Delete(pid) => pid@,
        }
    }

    /// What the operation does to a document's contents.
    pub open spec fn apply_to(self, m: Map<Seq<Pos>, char>) -> Map<Seq<Pos>, char> {
        match self {
            DocOp::Insert(pid, c) => m.insert(pid@, c),
            DocOp::Delete(pid) => m.remove(pid@),
        }
    }

    /// Encode this operation into `w`.
    pub fn serialize_into(&self, w: &mut Vec<u8>) -> (r: Result<(), WireError>)
        requires
            self.target().len() <= 255,
        ensures
            r is Ok,
            final(w)@ == old(w)@ + doc_op_bytes(*self),
    {
        match self {
            DocOp::Insert(pid, c) => {
                w.push(0u8);
                write_char_field(w, *c);
                w.push(pid.0.len() as u8);
                pid.write_bytes_buf(w);
                proof {
                    assert(w@ =~= old(w)@ + doc_op_bytes(*self));
                }
            },
            DocOp::Delete(pid) => {
                w.push(1u8);
                w.push(pid.0.len() as u8);
                pid.write_bytes_buf(w);
                proof {
                    assert(w@ =~= old(w)@ + doc_op_bytes(*self));
                }
            },
        }
        Ok(())
    }

    /// Encode this operation onto the end of `buf`.
    pub fn serialize(&self, buf: &mut Vec<u8>)
        requires
            self.target().len() <= 255,
        ensures
            final(buf)@ == old(buf)@ + doc_op_bytes(*self),
    {
        let _ = self.serialize_into(buf);
    }
}

/// Two operations that target distinct identifiers land in the same
/// contents in either order: applying the same set of operations converges
/// regardless of arrival order, which is the convergence the identifier
/// model exists to provide. Two deletions commute even at the same
/// identifier, and repeating any operation changes nothing more.
pub proof fn lemma_ops_commute(m: Map<Seq<Pos>, char>, a: DocOp, b: DocOp)
    requires
        a.target() != b.target() || (a is Delete && b is Delete),
    ensures
        b.apply_to(a.apply_to(m)) == a.apply_to(b.apply_to(m)),
{
    match (a, b) {
        (DocOp::Insert(p1, c1), DocOp::Insert(p2, c2)) => {
            lemma_insert_insert_commute(m, p1@, c1, p2@, c2);
        },
        (DocOp::Insert(p1, c1), DocOp::Delete(p2)) => {
            lemma_insert_delete_commute(m, p1@, c1, p2@);
        },
        (DocOp::Delete(p1), DocOp::Insert(p2, c2)) => {
            lemma_insert_delete_commute(m, p2@, c2, p1@);
        },
        (DocOp::Delete(p1), DocOp::Delete(p2)) => {
            lemma_delete_delete_commute(m, p1@, p2@);
        },
    }
}

/// Applying the same operation twice has the same effect as applying it
/// once: operations are idempotent, so a replayed frame is harmless.
pub proof fn lemma_ops_idempotent(m: Map<Seq<Pos>, char>, a: DocOp)
    ensures
        a.apply_to(a.apply_to(m)) == a.apply_to(m),
{
    match a {
        DocOp::Insert(p, c) => {
            crate::doc::lemma_insert_idempotent(m, p@, c);
        },
        DocOp::Delete(p) => {
            lemma_delete_idempotent(m, p@);
        },
    }
}

} // verus!
