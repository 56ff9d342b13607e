use coedit::doc::Doc;
use coedit::msg::PeerMessage;
use coedit::pid::{compare_pid, generate_between_pids, Pid};
use coedit::pos::Pos;
use coedit::session::SessionMessage;
use coedit::sync::{DocOp, SyncRequests, SyncResponses};
use coedit::wire::WireError;

fn pid(levels: &[(u32, u8)]) -> Pid {
    Pid(levels.iter().map(|&(i, s)| Pos { ident: i, site: s }).collect())
}

#[test]
fn peer_insert_round_trip() {
    let m = PeerMessage::Insert { site: 9, pid: pid(&[(7, 1), (123456, 3)]), c: 'é' };
    let bytes = m.serialize();
    match PeerMessage::deserialize(&bytes).unwrap() {
        PeerMessage::Insert { site, pid: p, c } => {
            assert_eq!(site, 9);
            assert_eq!(p, pid(&[(7, 1), (123456, 3)]));
            assert_eq!(c, 'é');
        }
        other => panic!("wrong variant: {:?}", other),
    }
}

#[test]
fn peer_delete_round_trip() {
    let m = PeerMessage::Delete { site: 4, pid: pid(&[(u32::MAX, 255)]) };
    let bytes = m.serialize();
    match PeerMessage::deserialize(&bytes).unwrap() {
        PeerMessage::Delete { site, pid: p } => {
            assert_eq!(site, 4);
            assert_eq!(p, pid(&[(u32::MAX, 255)]));
        }
        other => panic!("wrong variant: {:?}", other),
    }
}

#[test]
fn peer_snapshot_round_trip() {
    let doc = Doc::new("héllo😀");
    let m = PeerMessage::NewSession { site: 2, doc };
    let bytes = m.serialize();
    match PeerMessage::deserialize(&bytes).unwrap() {
        PeerMessage::NewSession { site, doc: d } => {
            assert_eq!(site, 2);
            assert_eq!(d.to_string(), "héllo😀");
            assert_eq!(d.len(), 8);
        }
        other => panic!("wrong variant: {:?}", other),
    }
}

#[test]
fn peer_greet_round_trip() {
    let bytes = PeerMessage::Greet.serialize();
    assert_eq!(bytes, vec![0u8]);
    assert!(matches!(PeerMessage::deserialize(&bytes).unwrap(), PeerMessage::Greet));
}

#[test]
fn session_round_trips() {
    let ms = vec![
        SessionMessage::Start { document_id: 0x1234_5678_9abc_def0_1122_3344_5566_7788, last_sync_time: 424242 },
        SessionMessage::Insert { site: 1, pid: pid(&[(10, 1), (20, 2), (30, 3)]), c: '\u{1F600}' },
        SessionMessage::Delete { site: 200, pid: pid(&[(99, 9)]) },
        SessionMessage::ChangeName { name: String::from("notes-à-jour") },
    ];
    for m in ms {
        let bytes = m.serialize();
        let back = SessionMessage::deserialize(&bytes).unwrap();
        match (&m, &back) {
            (
                SessionMessage::Start { document_id: a, last_sync_time: b },
                SessionMessage::Start { document_id: c, last_sync_time: d },
            ) => assert!(a == c && b == d),
            (
                SessionMessage::Insert { site: a, pid: p, c: x },
                SessionMessage::Insert { site: b, pid: q, c: y },
            ) => assert!(a == b && p == q && x == y),
            (
                SessionMessage::Delete { site: a, pid: p },
                SessionMessage::Delete { site: b, pid: q },
            ) => assert!(a == b && p == q),
            (
                SessionMessage::ChangeName { name: a },
                SessionMessage::ChangeName { name: b },
            ) => assert_eq!(a, b),
            _ => panic!("variant changed across the round trip"),
        }
    }
}

#[test]
fn session_snapshot_round_trip() {
    let m = SessionMessage::NewSession { site: 5, doc: Doc::new("xy") };
    let bytes = m.serialize();
    assert_eq!(bytes[0], 68);
    match SessionMessage::deserialize(&bytes).unwrap() {
        SessionMessage::NewSession { site, doc } => {
            assert_eq!(site, 5);
            assert_eq!(doc.to_string(), "xy");
        }
        other => panic!("wrong variant: {:?}", other),
    }
}

#[test]
fn sync_request_round_trips() {
    for r in [
        SyncRequests::SyncList { last_sync_time: 7 },
        SyncRequests::SyncDoc { last_sync_time: 8, document_id: 99 },
    ] {
        let bytes = r.serialize();
        assert_eq!(SyncRequests::deserialize(&bytes).unwrap(), r);
    }
}

#[test]
fn decode_rejects_malformed_frames() {
    // truncated buffers
    assert_eq!(PeerMessage::deserialize(&vec![]).unwrap_err(), WireError::Truncated);
    assert_eq!(PeerMessage::deserialize(&vec![2u8, 1u8]).unwrap_err(), WireError::Truncated);
    // unknown opcode
    assert_eq!(PeerMessage::deserialize(&vec![200u8]).unwrap_err(), WireError::BadOpcode);
    assert_eq!(SessionMessage::deserialize(&vec![5u8]).unwrap_err(), WireError::BadOpcode);
    assert_eq!(SyncRequests::deserialize(&vec![9u8]).unwrap_err(), WireError::BadOpcode);
    // a zero-depth identifier is not an identifier
    assert_eq!(
        PeerMessage::deserialize(&vec![3u8, 1u8, 0u8]).unwrap_err(),
        WireError::BadRecord
    );
    // invalid UTF-8 in a character field
    assert_eq!(
        PeerMessage::deserialize(&vec![2u8, 1u8, 1u8, 0xFFu8, 1u8, 0, 0, 0, 0, 1]).unwrap_err(),
        WireError::BadUtf8
    );
}

#[test]
fn doc_op_encodings() {
    let mut buf = Vec::new();
    DocOp::Insert(pid(&[(5, 1)]), 'a').serialize(&mut buf);
    assert_eq!(buf, vec![0u8, 1, b'a', 1, 5, 0, 0, 0, 1]);
    let mut buf2 = Vec::new();
    let _ = DocOp::Delete(pid(&[(5, 1)])).serialize_into(&mut buf2);
    assert_eq!(buf2, vec![1u8, 1, 5, 0, 0, 0, 1]);
}

#[test]
fn sync_response_list_layout() {
    let docs = vec![
        coedit::sync::DocSyncInfo::new(1, 10),
        coedit::sync::DocSyncInfo::new(2, 20),
    ];
    let mut buf = Vec::new();
    let _ = SyncResponses::SyncList(docs).serialize_into(&mut buf);
    assert_eq!(buf[0], 32);
    assert_eq!(buf.len(), 1 + 8 + 2 * 24);
    assert_eq!(&buf[1..9], &2u64.to_le_bytes());
}

#[test]
fn allocator_lands_in_gap() {
    let l = pid(&[(0, 1)]);
    let r = pid(&[(1000, 1)]);
    let fresh = generate_between_pids(&l, &r, 7);
    assert_eq!(compare_pid(&l, &fresh), -1);
    assert_eq!(compare_pid(&fresh, &r), -1);
    assert_eq!(fresh.0.last().unwrap().site, 7);
}

#[test]
fn concurrent_sites_never_collide() {
    let l = pid(&[(0, 1)]);
    let r = pid(&[(2, 1)]);
    // only one slot separates the bounds: the tie-break carries each
    // caller's site
    let a = generate_between_pids(&l, &r, 2);
    let b = generate_between_pids(&l, &r, 3);
    assert_ne!(compare_pid(&a, &b), 0);
    assert_eq!(compare_pid(&l, &a), -1);
    assert_eq!(compare_pid(&a, &r), -1);
    assert_eq!(compare_pid(&l, &b), -1);
    assert_eq!(compare_pid(&b, &r), -1);
    // both replicas order the pair the same way, whatever arrived first
    assert_eq!(compare_pid(&a, &b), -compare_pid(&b, &a));
}

#[test]
fn tight_zero_extension_steps_short() {
    // the right bound is the left bound plus two all-zero levels: the
    // only identifiers between are the shorter zero extensions
    let l = pid(&[(5, 1)]);
    let r = pid(&[(5, 1), (0, 0), (0, 0)]);
    let x = generate_between_pids(&l, &r, 9);
    assert_eq!(compare_pid(&l, &x), -1);
    assert_eq!(compare_pid(&x, &r), -1);
}
