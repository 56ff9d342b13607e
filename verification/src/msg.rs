//! Peer broadcast messages: operations and full-document snapshots fanned
//! out between sites, with their binary wire form.

use crate::doc::{
    atom_bytes, dec_atom, dec_atoms, doc_bytes, lemma_dec_atoms_round_trip, lemma_doc_round_trip,
    lemma_records_map, map_of_records, records_of, sentinels_ok, Doc,
};
use crate::pid::{
    dec_positions, lemma_dec_positions_round_trip, lemma_pid_body_bytes_len, pid_body_bytes, Pid,
};
use crate::pos::Pos;
use crate::wire::{char_field_bytes, read_u64, read_u8, write_char_field, write_u64, WireError};
use vstd::bytes::{spec_u64_from_le_bytes, spec_u64_to_le_bytes};
use vstd::prelude::*;

verus! {

/// A message on the peer broadcast channel.
#[derive(Debug, Clone)]
pub enum PeerMessage {
    Greet,
    Insert { site: u8, pid: Pid, c: char },
    Delete { site: u8, pid: Pid },
    NewSession { site: u8, doc: Doc },
}

/// The mathematical content of a peer message: a snapshot is its map.
pub enum PeerMsgV {
    Greet,
    Insert { site: u8, pid: Seq<Pos>, c: char },
    Delete { site: u8, pid: Seq<Pos> },
    NewSession { site: u8, contents: Map<Seq<Pos>, char> },
}

impl View for PeerMessage {
    type V = PeerMsgV;

    open spec fn view(&self) -> PeerMsgV {
        match *self {
            PeerMessage::Greet => PeerMsgV::Greet,
            PeerMessage::Insert { site, pid, c } => PeerMsgV::Insert { site, pid: pid@, c },
            PeerMessage::Delete { site, pid } => PeerMsgV::Delete { site, pid: pid@ },
            PeerMessage::NewSession { site, doc } => PeerMsgV::NewSession {
                site,
                contents: doc.content_map(),
            },
        }
    }
}

/// Field ranges under which the wire form is faithful.
pub open spec fn peer_wf(m: PeerMessage) -> bool {
    match m {
        PeerMessage::Greet => true,
        PeerMessage::Insert { site, pid, c } => 1 <= pid@.len() <= 255,
        PeerMessage::Delete { site, pid } => 1 <= pid@.len() <= 255,
        PeerMessage::NewSession { site, doc } => doc.wf() && doc.atoms@.len()
            <= 0xFFFF_FFFF_FFFF_FFFF,
    }
}

/// Wire form of a peer message: the opcode byte, then the payload.
pub open spec fn peer_bytes(m: PeerMessage) -> Seq<u8> {
    match m {
        PeerMessage::Greet => seq![0u8],
        PeerMessage::NewSession { site, doc } => seq![1u8, site] + spec_u64_to_le_bytes(
            doc.atoms@.len() as u64,
        ) + doc_bytes(doc.atoms@),
        PeerMessage::Insert { site, pid, c } => seq![2u8, site] + atom_bytes(pid@, c),
        PeerMessage::Delete { site, pid } => seq![3u8, site] + (seq![pid@.len() as u8]
            + pid_body_bytes(pid@)),
    }
}

/// Decode a peer message from a whole buffer; bytes past the message are
/// ignored, as a connection hands over one frame at a time.
pub open spec fn peer_dec(bs: Seq<u8>) -> Option<PeerMsgV> {
    if bs.len() < 1 {
        Option::None
    } else if bs[0] == 0 {
        Option::Some(PeerMsgV::Greet)
    } else if bs[0] == 1 {
        if bs.len() < 10 {
            Option::None
        } else {
            let cnt = spec_u64_from_le_bytes(bs.subrange(2, 10));
            match dec_atoms(bs.skip(10), cnt as nat) {
                Option::None => Option::None,
                Option::Some((rs, used)) => {
                    if sentinels_ok(map_of_records(rs)) {
                        Option::Some(
                            PeerMsgV::NewSession { site: bs[1], contents: map_of_records(rs) },
                        )
                    } else {
                        Option::None
                    }
                },
            }
        }
    } else if bs[0] == 2 {
        if bs.len() < 2 {
            Option::None
        } else {
            match dec_atom(bs.skip(2)) {
                Option::None => Option::None,
                Option::Some((rec, used)) => Option::Some(
                    PeerMsgV::Insert { site: bs[1], pid: rec.0, c: rec.1 },
                ),
            }
        }
    } else if bs[0] == 3 {
        if bs.len() < 3 {
            Option::None
        } else {
            let d = bs[2];
            if d == 0 {
                Option::None
            } else {
                match dec_positions(bs.skip(3), d as nat) {
                    Option::None => Option::None,
                    Option::Some(ps) => Option::Some(PeerMsgV::Delete { site: bs[1], pid: ps }),
                }
            }
        }
    } else {
        Option::None
    }
}

/// Decoding an encoded peer message yields its content back, for every
/// message whose fields are in range.
pub proof fn lemma_peer_round_trip(m: PeerMessage)
    requires
        peer_wf(m),
    ensures
        peer_dec(peer_bytes(m)) == Option::Some(m@),
{
    let bs = peer_bytes(m);
    match m {
        PeerMessage::Greet => {},
        PeerMessage::NewSession { site, doc } => {
            vstd::bytes::lemma_auto_spec_u64_to_from_le_bytes();
            let le = spec_u64_to_le_bytes(doc.atoms@.len() as u64);
            let head = seq![1u8, site] + le;
            assert(bs[0] == 1 && bs[1] == site);
            assert(bs.subrange(2, 10) =~= le) by {
                assert forall|m: int| 0 <= m < 8 implies #[trigger] bs.subrange(2, 10)[m]
                    == le[m] by {
                    assert(bs.subrange(2, 10)[m] == bs[2 + m]);
                    assert(bs[2 + m] == head[2 + m]);
                    assert(head[2 + m] == le[m]);
                }
                assert(bs.subrange(2, 10).len() == 8);
            }
            assert(bs.skip(10) =~= doc_bytes(doc.atoms@)) by {
                assert forall|m: int| 0 <= m < bs.len() - 10 implies #[trigger] bs.skip(10)[m]
                    == doc_bytes(doc.atoms@)[m] by {
                    assert(bs.skip(10)[m] == bs[10 + m]);
                }
                assert(bs.skip(10).len() == bs.len() - 10);
            }
            lemma_dec_atoms_round_trip(doc.atoms@, Seq::<u8>::empty());
            assert(doc_bytes(doc.atoms@) + Seq::<u8>::empty() =~= doc_bytes(doc.atoms@));
            lemma_records_map(doc.atoms@);
            lemma_doc_round_trip(doc);
        },
        PeerMessage::Insert { site, pid, c } => {
            assert(bs[0] == 2 && bs[1] == site);
            assert(bs.skip(2) =~= atom_bytes(pid@, c) + Seq::<u8>::empty());
            crate::doc::lemma_dec_atom_round_trip(pid@, c, Seq::<u8>::empty());
        },
        PeerMessage::Delete { site, pid } => {
            assert(bs[0] == 3 && bs[1] == site);
            assert(bs[2] == pid@.len() as u8);
            assert(bs.skip(3) =~= pid_body_bytes(pid@) + Seq::<u8>::empty());
            lemma_dec_positions_round_trip(pid@, Seq::<u8>::empty());
        },
    }
}

impl PeerMessage {
    /// Encode this message into its wire form.
    pub fn serialize(&self) -> (r: Vec<u8>)
        requires
            match *self {
                PeerMessage::Insert { site, pid, c } => pid@.len() <= 255,
                PeerMessage::Delete { site, pid } => pid@.len() <= 255,
                PeerMessage::NewSession { site, doc } => crate::doc::depths_ok(doc.atoms@),
                _ => true,
            },
        ensures
            r@ == peer_bytes(*self),
    {
        match self {
            PeerMessage::Greet => {
                let mut buf: Vec<u8> = Vec::new();
                buf.push(0u8);
                proof {
                    assert(buf@ =~= peer_bytes(*self));
                }
                buf
            },
            PeerMessage::NewSession { site, doc } => {
                let mut buf: Vec<u8> = Vec::new();
                buf.push(1u8);
                buf.push(*site);
                write_u64(&mut buf, doc.len() as u64);
                doc.write_bytes_tobuf(&mut buf);
                proof {
                    assert(buf@ =~= peer_bytes(*self));
                }
                buf
            },
            PeerMessage::Insert { site, pid, c } => {
                let mut buf: Vec<u8> = Vec::new();
                buf.push(2u8);
                buf.push(*site);
                write_char_field(&mut buf, *c);
                buf.push(pid.0.len() as u8);
                pid.write_bytes_buf(&mut buf);
                proof {
                    assert(buf@ =~= peer_bytes(*self));
                }
                buf
            },
            PeerMessage::Delete { site, pid } => {
                let mut buf: Vec<u8> = Vec::new();
                buf.push(3u8);
                buf.push(*site);
                buf.push(pid.0.len() as u8);
                pid.write_bytes_buf(&mut buf);
                proof {
                    assert(buf@ =~= peer_bytes(*self));
                }
                buf
            },
        }
    }

    /// Decode a peer message from a frame; every malformed frame yields a
    /// typed error.
    pub fn deserialize(buf: &Vec<u8>) -> (r: Result<PeerMessage, WireError>)
        ensures
            r is Ok <==> peer_dec(buf@) is Some,
            r is Ok ==> (r->Ok_0)@ == peer_dec(buf@)->0,
    {
        let mut i: usize = 0;
        let op = match read_u8(buf, &mut i) {
            Ok(v) => v,
            Err(e) => {
                return Err(e);
            },
        };
        if op == 0 {
            Ok(PeerMessage::Greet)
        } else if op == 1 {
            let site = match read_u8(buf, &mut i) {
                Ok(v) => v,
                Err(e) => {
                    return Err(e);
                },
            };
            let cnt = match read_u64(buf, &mut i) {
                Ok(v) => v,
                Err(e) => {
                    return Err(e);
                },
            };
            proof {
                assert(buf@.subrange(2, 10) =~= buf@.subrange(2int, 10int));
            }
            if cnt > (buf.len() - i) as u64 {
                proof {
                    crate::doc::lemma_dec_atoms_min(buf@.skip(10), cnt as nat);
                }
                return Err(WireError::Truncated);
            }
            let doc = match Doc::from_reader(buf, &mut i, cnt as usize) {
                Ok(d) => d,
                Err(e) => {
                    return Err(e);
                },
            };
            Ok(PeerMessage::NewSession { site, doc })
        } else if op == 2 {
            let site = match read_u8(buf, &mut i) {
                Ok(v) => v,
                Err(e) => {
                    return Err(e);
                },
            };
            let (pid, c) = match crate::doc::read_atom_at(buf, &mut i) {
                Ok(pc) => pc,
                Err(e) => {
                    return Err(e);
                },
            };
            Ok(PeerMessage::Insert { site, pid, c })
        } else if op == 3 {
            let site = match read_u8(buf, &mut i) {
                Ok(v) => v,
                Err(e) => {
                    return Err(e);
                },
            };
            let d = match read_u8(buf, &mut i) {
                Ok(v) => v,
                Err(e) => {
                    return Err(e);
                },
            };
            if d == 0 {
                return Err(WireError::BadRecord);
            }
            let pid = match Pid::from_reader(buf, &mut i, d as usize) {
                Ok(p) => p,
                Err(e) => {
                    return Err(e);
                },
            };
            Ok(PeerMessage::Delete { site, pid })
        } else {
            Err(WireError::BadOpcode)
        }
    }
}

} // verus!
