//! Client–server session messages, with their binary wire form. Session
//! opcodes live in their own range so a connection can dispatch frames by
//! the first byte alone.

use crate::doc::{
    atom_bytes, dec_atom, dec_atoms, doc_bytes, lemma_dec_atoms_round_trip, lemma_doc_round_trip,
    lemma_records_map, map_of_records, sentinels_ok, Doc,
};
use crate::pid::{
    dec_positions, lemma_dec_positions_round_trip, pid_body_bytes, Pid,
};
use crate::pos::Pos;
use crate::wire::{
    lemma_no_newline_in_utf8, lemma_split_at_nl_round_trip, read_line_field, read_u128, read_u64,
    read_u8, split_at_nl, write_char_field, write_u128, write_u64, WireError,
};
use vstd::bytes::{
    spec_u128_from_le_bytes, spec_u128_to_le_bytes, spec_u64_from_le_bytes, spec_u64_to_le_bytes,
};
use vstd::prelude::*;
use vstd::utf8::{decode_utf8, encode_utf8, valid_utf8};

verus! {

/// A message on a client–server session.
#[derive(Debug, Clone)]
pub enum SessionMessage {
    Start { document_id: u128, last_sync_time: u64 },
    Insert { site: u8, pid: Pid, c: char },
    Delete { site: u8, pid: Pid },
    ChangeName { name: String },
    NewSession { site: u8, doc: Doc },
}

/// The mathematical content of a session message.
pub enum SessionMsgV {
    Start { document_id: u128, last_sync_time: u64 },
    Insert { site: u8, pid: Seq<Pos>, c: char },
    Delete { site: u8, pid: Seq<Pos> },
    ChangeName { name: Seq<char> },
    NewSession { site: u8, contents: Map<Seq<Pos>, char> },
}

impl View for SessionMessage {
    type V = SessionMsgV;

    open spec fn view(&self) -> SessionMsgV {
        match *self {
            SessionMessage::Start { document_id, last_sync_time } => SessionMsgV::Start {
                document_id,
                last_sync_time,
            },
            SessionMessage::Insert { site, pid, c } => SessionMsgV::Insert { site, pid: pid@, c },
            SessionMessage::Delete { site, pid } => SessionMsgV::Delete { site, pid: pid@ },
            SessionMessage::ChangeName { name } => SessionMsgV::ChangeName { name: name@ },
            SessionMessage::NewSession { site, doc } => SessionMsgV::NewSession {
                site,
                contents: doc.content_map(),
            },
        }
    }
}

/// Field ranges under which the wire form is faithful: identifiers fit the
/// depth byte, names carry no newline, snapshots are well-formed.
pub open spec fn session_wf(m: SessionMessage) -> bool {
    match m {
        SessionMessage::Start { document_id, last_sync_time } => true,
        SessionMessage::Insert { site, pid, c } => 1 <= pid@.len() <= 255,
        SessionMessage::Delete { site, pid } => 1 <= pid@.len() <= 255,
        SessionMessage::ChangeName { name } => forall|j: int|
            0 <= j < name@.len() ==> name@[j] != '\n',
        SessionMessage::NewSession { site, doc } => doc.wf() && doc.atoms@.len()
            <= 0xFFFF_FFFF_FFFF_FFFF,
    }
}

/// Wire form of a session message: an opcode in the session range, then
/// the payload.
pub open spec fn session_bytes(m: SessionMessage) -> Seq<u8> {
    match m {
        SessionMessage::Start { document_id, last_sync_time } => seq![64u8]
            + spec_u64_to_le_bytes(last_sync_time) + spec_u128_to_le_bytes(document_id),
        SessionMessage::Insert { site, pid, c } => seq![65u8, site] + atom_bytes(pid@, c),
        SessionMessage::Delete { site, pid } => seq![66u8, site] + (seq![pid@.len() as u8]
            + pid_body_bytes(pid@)),
        SessionMessage::ChangeName { name } => seq![67u8] + encode_utf8(name@) + seq![10u8],
        SessionMessage::NewSession { site, doc } => seq![68u8, site] + spec_u64_to_le_bytes(
            doc.atoms@.len() as u64,
        ) + doc_bytes(doc.atoms@),
    }
}

/// Decode a session message from a whole frame.
pub open spec fn session_dec(bs: Seq<u8>) -> Option<SessionMsgV> {
    if bs.len() < 1 {
        Option::None
    } else if bs[0] == 64 {
        if bs.len() < 25 {
            Option::None
        } else {
            Option::Some(
                SessionMsgV::Start {
                    document_id: spec_u128_from_le_bytes(bs.subrange(9, 25)),
                    last_sync_time: spec_u64_from_le_bytes(bs.subrange(1, 9)),
                },
            )
        }
    } else if bs[0] == 65 {
        if bs.len() < 2 {
            Option::None
        } else {
            match dec_atom(bs.skip(2)) {
                Option::None => Option::None,
                Option::Some((rec, used)) => Option::Some(
                    SessionMsgV::Insert { site: bs[1], pid: rec.0, c: rec.1 },
                ),
            }
        }
    } else if bs[0] == 66 {
        if bs.len() < 3 {
            Option::None
        } else {
            let d = bs[2];
            if d == 0 {
                Option::None
            } else {
                match dec_positions(bs.skip(3), d as nat) {
                    Option::None => Option::None,
                    Option::Some(ps) => Option::Some(
                        SessionMsgV::Delete { site: bs[1], pid: ps },
                    ),
                }
            }
        }
    } else if bs[0] == 67 {
        match split_at_nl(bs.skip(1)) {
            Option::None => Option::None,
            Option::Some((pre, used)) => {
                if valid_utf8(pre) {
                    Option::Some(SessionMsgV::ChangeName { name: decode_utf8(pre) })
                } else {
                    Option::None
                }
            },
        }
    } else if bs[0] == 68 {
        if bs.len() < 10 {
            Option::None
        } else {
            let cnt = spec_u64_from_le_bytes(bs.subrange(2, 10));
            match dec_atoms(bs.skip(10), cnt as nat) {
                Option::None => Option::None,
                Option::Some((rs, used)) => {
                    if sentinels_ok(map_of_records(rs)) {
                        Option::Some(
                            SessionMsgV::NewSession { site: bs[1], contents: map_of_records(rs) },
                        )
                    } else {
                        Option::None
                    }
                },
            }
        }
    } else {
        Option::None
    }
}

/// Decoding an encoded session message yields its content back, for every
/// message whose fields are in range.
pub proof fn lemma_session_round_trip(m: SessionMessage)
    requires
        session_wf(m),
    ensures
        session_dec(session_bytes(m)) == Option::Some(m@),
{
    let bs = session_bytes(m);
    match m {
        SessionMessage::Start { document_id, last_sync_time } => {
            vstd::bytes::lemma_auto_spec_u64_to_from_le_bytes();
            vstd::bytes::lemma_auto_spec_u128_to_from_le_bytes();
            let le = spec_u64_to_le_bytes(last_sync_time);
            let li = spec_u128_to_le_bytes(document_id);
            assert(bs.subrange(1, 9) =~= le) by {
                assert forall|j: int| 0 <= j < 8 implies #[trigger] bs.subrange(1, 9)[j]
                    == le[j] by {
                    assert(bs.subrange(1, 9)[j] == bs[1 + j]);
                    assert(bs[1 + j] == (seq![64u8] + le)[1 + j]);
                }
                assert(bs.subrange(1, 9).len() == 8);
            }
            assert(bs.subrange(9, 25) =~= li) by {
                assert forall|j: int| 0 <= j < 16 implies #[trigger] bs.subrange(9, 25)[j]
                    == li[j] by {
                    assert(bs.subrange(9, 25)[j] == bs[9 + j]);
                }
                assert(bs.subrange(9, 25).len() == 16);
            }
        },
        SessionMessage::Insert { site, pid, c } => {
            assert(bs[0] == 65 && bs[1] == site);
            assert(bs.skip(2) =~= atom_bytes(pid@, c) + Seq::<u8>::empty());
            crate::doc::lemma_dec_atom_round_trip(pid@, c, Seq::<u8>::empty());
        },
        SessionMessage::Delete { site, pid } => {
            assert(bs[0] == 66 && bs[1] == site);
            assert(bs[2] == pid@.len() as u8);
            assert(bs.skip(3) =~= pid_body_bytes(pid@) + Seq::<u8>::empty());
            lemma_dec_positions_round_trip(pid@, Seq::<u8>::empty());
        },
        SessionMessage::ChangeName { name } => {
            assert(bs[0] == 67);
            lemma_no_newline_in_utf8(name@);
            assert(bs.skip(1) =~= encode_utf8(name@) + seq![10u8] + Seq::<u8>::empty());
            lemma_split_at_nl_round_trip(encode_utf8(name@), Seq::<u8>::empty());
            vstd::utf8::encode_utf8_valid_utf8(name@);
            vstd::utf8::encode_utf8_decode_utf8(name@);
        },
        SessionMessage::NewSession { site, doc } => {
            vstd::bytes::lemma_auto_spec_u64_to_from_le_bytes();
            let le = spec_u64_to_le_bytes(doc.atoms@.len() as u64);
            let head = seq![68u8, site] + le;
            assert(bs[0] == 68 && bs[1] == site);
            assert(bs.subrange(2, 10) =~= le) by {
                assert forall|j: int| 0 <= j < 8 implies #[trigger] bs.subrange(2, 10)[j]
                    == le[j] by {
                    assert(bs.subrange(2, 10)[j] == bs[2 + j]);
                    assert(bs[2 + j] == head[2 + j]);
                    assert(head[2 + j] == le[j]);
                }
                assert(bs.subrange(2, 10).len() == 8);
            }
            assert(bs.skip(10) =~= doc_bytes(doc.atoms@)) by {
                assert forall|j: int| 0 <= j < bs.len() - 10 implies #[trigger] bs.skip(10)[j]
                    == doc_bytes(doc.atoms@)[j] by {
                    assert(bs.skip(10)[j] == bs[10 + j]);
                }
                assert(bs.skip(10).len() == bs.len() - 10);
            }
            lemma_dec_atoms_round_trip(doc.atoms@, Seq::<u8>::empty());
            assert(doc_bytes(doc.atoms@) + Seq::<u8>::empty() =~= doc_bytes(doc.atoms@));
            lemma_records_map(doc.atoms@);
            lemma_doc_round_trip(doc);
        },
    }
}

impl SessionMessage {
    /// Encode this message into its wire form.
    pub fn serialize(&self) -> (r: Vec<u8>)
        requires
            match *self {
                SessionMessage::Insert { site, pid, c } => pid@.len() <= 255,
                SessionMessage::Delete { site, pid } => pid@.len() <= 255,
                SessionMessage::NewSession { site, doc } => crate::doc::depths_ok(doc.atoms@),
                _ => true,
            },
        ensures
            r@ == session_bytes(*self),
    {
        match self {
            SessionMessage::Start { document_id, last_sync_time } => {
                let mut buf: Vec<u8> = Vec::new();
                buf.push(64u8);
                write_u64(&mut buf, *last_sync_time);
                write_u128(&mut buf, *document_id);
                proof {
                    assert(buf@ =~= session_bytes(*self));
                }
                buf
            },
            SessionMessage::Insert { site, pid, c } => {
                let mut buf: Vec<u8> = Vec::new();
                buf.push(65u8);
                buf.push(*site);
                write_char_field(&mut buf, *c);
                buf.push(pid.0.len() as u8);
                pid.write_bytes_buf(&mut buf);
                proof {
                    assert(buf@ =~= session_bytes(*self));
                }
                buf
            },
            SessionMessage::Delete { site, pid } => {
                let mut buf: Vec<u8> = Vec::new();
                buf.push(66u8);
                buf.push(*site);
                buf.push(pid.0.len() as u8);
                pid.write_bytes_buf(&mut buf);
                proof {
                    assert(buf@ =~= session_bytes(*self));
                }
                buf
            },
            SessionMessage::ChangeName { name } => {
                let mut buf: Vec<u8> = Vec::new();
                buf.push(67u8);
                let mut nb = name.as_str().as_bytes_vec();
                buf.append(&mut nb);
                buf.push(10u8);
                proof {
                    assert(buf@ =~= session_bytes(*self));
                }
                buf
            },
            SessionMessage::NewSession { site, doc } => {
                let mut buf: Vec<u8> = Vec::new();
                buf.push(68u8);
                buf.push(*site);
                write_u64(&mut buf, doc.len() as u64);
                doc.write_bytes_tobuf(&mut buf);
                proof {
                    assert(buf@ =~= session_bytes(*self));
                }
                buf
            },
        }
    }

    /// Decode a session message from a frame; every malformed frame
    /// yields a typed error.
    pub fn deserialize(buf: &Vec<u8>) -> (r: Result<SessionMessage, WireError>)
        ensures
            r is Ok <==> session_dec(buf@) is Some,
            r is Ok ==> (r->Ok_0)@ == session_dec(buf@)->0,
    {
        let mut i: usize = 0;
        let op = match read_u8(buf, &mut i) {
            Ok(v) => v,
            Err(e) => {
                return Err(e);
            },
        };
        if op == 64 {
            let last_sync_time = match read_u64(buf, &mut i) {
                Ok(v) => v,
                Err(e) => {
                    return Err(e);
                },
            };
            let document_id = match read_u128(buf, &mut i) {
                Ok(v) => v,
                Err(e) => {
                    return Err(e);
                },
            };
            proof {
                assert(buf@.subrange(1, 9) =~= buf@.subrange(1int, 9int));
                assert(buf@.subrange(9, 25) =~= buf@.subrange(9int, 25int));
            }
            Ok(SessionMessage::Start { document_id, last_sync_time })
        } else if op == 65 {
            let site = match read_u8(buf, &mut i) {
                Ok(v) => v,
                Err(e) => {
                    return Err(e);
                },
            };
            let (pid, c) = match crate::doc::read_atom_at(buf, &mut i) {
                Ok(pc) => pc,
                Err(e) => {
                    return Err(e);
                },
            };
            Ok(SessionMessage::Insert { site, pid, c })
        } else if op == 66 {
            let site = match read_u8(buf, &mut i) {
                Ok(v) => v,
                Err(e) => {
                    return Err(e);
                },
            };
            let d = match read_u8(buf, &mut i) {
                Ok(v) => v,
                Err(e) => {
                    return Err(e);
                },
            };
            if d == 0 {
                return Err(WireError::BadRecord);
            }
            let pid = match Pid::from_reader(buf, &mut i, d as usize) {
                Ok(p) => p,
                Err(e) => {
                    return Err(e);
                },
            };
            Ok(SessionMessage::Delete { site, pid })
        } else if op == 67 {
            let name = match read_line_field(buf, &mut i) {
                Ok(n) => n,
                Err(e) => {
                    return Err(e);
                },
            };
            Ok(SessionMessage::ChangeName { name })
        } else if op == 68 {
            let site = match read_u8(buf, &mut i) {
                Ok(v) => v,
                Err(e) => {
                    return Err(e);
                },
            };
            let cnt = match read_u64(buf, &mut i) {
                Ok(v) => v,
                Err(e) => {
                    return Err(e);
                },
            };
            proof {
                assert(buf@.subrange(2, 10) =~= buf@.subrange(2int, 10int));
            }
            if cnt > (buf.len() - i) as u64 {
                proof {
                    crate::doc::lemma_dec_atoms_min(buf@.skip(10), cnt as nat);
                }
                return Err(WireError::Truncated);
            }
            let doc = match Doc::from_reader(buf, &mut i, cnt as usize) {
                Ok(d) => d,
                Err(e) => {
                    return Err(e);
                },
            };
            Ok(SessionMessage::NewSession { site, doc })
        } else {
            Err(WireError::BadOpcode)
        }
    }
}

/// Session opcodes occupy 64 and above; a first frame whose opcode is
/// below 64 belongs to the synchronization path.
pub fn frame_is_sync(op: u8) -> (r: bool)
    ensures
        r == (op < 64),
{
    op < 64
}

} // verus!
