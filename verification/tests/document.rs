use coedit::doc::Doc;
use coedit::editor::EditorMessage;
use coedit::events::{handle_event, AppEvent, RemoteEvent};
use coedit::pid::compare_pid;
use coedit::session::SessionMessage;
use coedit::state::{DocStructure, SessionMember, State, StateCommand, StateError};

#[test]
fn build_from_text_spaces_identifiers() {
    // the scenario with default site 1: sentinels at the ends, content at
    // multiples of the evenly split identifier space
    let d = Doc::new("ab");
    let step = (u32::MAX as usize) / 2;
    let keys = d.keys();
    assert_eq!(keys.len(), 4);
    assert_eq!(keys[0].0[0].ident, 0);
    assert_eq!(keys[0].0[0].site, 0);
    assert_eq!(keys[1].0[0].ident, 0);
    assert_eq!(keys[1].0[0].site, 1);
    assert_eq!(keys[2].0[0].ident, step as u32);
    assert_eq!(keys[2].0[0].site, 1);
    assert_eq!(keys[3].0[0].ident, u32::MAX);
    assert_eq!(keys[3].0[0].site, 0);
    assert_eq!(d.to_string(), "ab");
}

#[test]
fn insert_before_a_from_second_site() {
    let mut d = Doc::new("ab");
    d.set_site(2);
    let id_of_a = d.keys()[1].clone();
    let fresh = d.insert_left(id_of_a, 'c').unwrap();
    assert_eq!(d.to_string(), "cab");
    // strictly between the begin sentinel and the entry for 'a'
    let keys = d.keys();
    assert_eq!(compare_pid(&keys[0], &fresh), -1);
    assert_eq!(compare_pid(&fresh, &keys[2]), -1);
}

#[test]
fn tie_without_room_descends() {
    // between `(0,0)` and `(0,1)` no site byte fits the same-slot
    // tie-break, so the allocator descends below the left bound instead
    let mut d = Doc::new("ab");
    d.set_site(2);
    let id_of_a = d.keys()[1].clone();
    let fresh = d.insert_left(id_of_a, 'c').unwrap();
    assert_eq!(d.to_string(), "cab");
    assert_eq!(fresh.0.len(), 2);
    assert_eq!(fresh.0[0], coedit::pos::Pos { ident: 0, site: 0 });
    assert_eq!(fresh.0[1].site, 2);
}

#[test]
fn delete_is_idempotent() {
    let mut d = Doc::new("abc");
    let id_of_b = d.keys()[2].clone();
    d.delete(&id_of_b);
    assert_eq!(d.to_string(), "ac");
    d.delete(&id_of_b);
    assert_eq!(d.to_string(), "ac");
    assert_eq!(d.len(), 4);
}

#[test]
fn sentinels_survive_boundary_edits() {
    let mut d = Doc::new("");
    assert_eq!(d.len(), 2);
    // between the sentinels of an empty document there is always room
    let end = d.keys()[1].clone();
    let fresh = d.insert_left(end, 'x').unwrap();
    assert_eq!(d.to_string(), "x");
    // the sentinels cannot be deleted
    let begin = d.keys()[0].clone();
    let end = d.keys()[2].clone();
    d.delete(&begin);
    d.delete(&end);
    assert_eq!(d.len(), 3);
    let keys = d.keys();
    assert_eq!(keys[0].0[0].ident, 0);
    assert_eq!(keys[2].0[0].ident, u32::MAX);
    assert_eq!(compare_pid(&keys[1], &fresh), 0);
}

#[test]
fn offsets_walk_the_document() {
    let d = Doc::new("abc");
    let id_of_a = d.keys()[1].clone();
    let two_right = d.offset(&id_of_a, 2).unwrap();
    assert_eq!(compare_pid(&two_right, &d.keys()[3]), 0);
    let back = d.offset(&two_right, -2).unwrap();
    assert_eq!(compare_pid(&back, &id_of_a), 0);
    assert!(d.offset(&id_of_a, 5).is_none());
    let r = d.right(&id_of_a);
    let l = d.left(&r);
    assert_eq!(compare_pid(&l, &id_of_a), 0);
}

#[test]
fn flush_then_reload_keeps_multibyte_content() {
    let ds = DocStructure::create_new(String::from("memo"), "a😀é", 77, 1234);
    let bytes = ds.structure_bytes();
    let back = DocStructure::read_existing(&bytes, String::from("memo")).unwrap();
    assert_eq!(back.id, 77);
    assert_eq!(back.last_modified, 1234);
    assert_eq!(back.doc.to_string(), "a😀é");
    let ka = ds.doc.keys();
    let kb = back.doc.keys();
    assert_eq!(ka.len(), kb.len());
    for (x, y) in ka.iter().zip(kb.iter()) {
        assert_eq!(compare_pid(x, y), 0);
    }
}

#[test]
fn sync_list_is_ascending_and_complete() {
    let mut st = State::empty();
    // three documents created in the same millisecond: collisions bump
    let a = DocStructure::create_new(String::from("a"), "", 1, 500);
    let b = DocStructure::create_new(String::from("b"), "", 2, 500);
    let c = DocStructure::create_new(String::from("c"), "", 3, 500);
    st.add_doc(a).unwrap();
    st.add_doc(b).unwrap();
    st.add_doc(c).unwrap();
    let list = st.sync_list();
    assert_eq!(list.len(), 3);
    assert!(list[0].last_mod_time < list[1].last_mod_time);
    assert!(list[1].last_mod_time < list[2].last_mod_time);
    let mut ids: Vec<u128> = list.iter().map(|e| e.document_id).collect();
    ids.sort();
    assert_eq!(ids, vec![1, 2, 3]);
}

#[test]
fn state_routes_by_identity() {
    let mut st = State::empty();
    st.add_doc(DocStructure::create_new(String::from("a"), "one", 10, 1)).unwrap();
    st.add_doc(DocStructure::create_new(String::from("b"), "two", 20, 2)).unwrap();
    assert_eq!(st.get_doc(20).to_string(), "two");
    let idx = st.get_structure(10);
    assert_eq!(st.docs[idx].name, "a");
    assert_eq!(st.docs[idx].get_doc().to_string(), "one");
    assert_eq!(st.docs[idx].get_plainmd_path(), "a.md");
    assert_eq!(st.docs[idx].get_structure_path(), "a.md.structure");
}

#[test]
fn apply_op_updates_contents() {
    let mut st = State::empty();
    st.add_doc(DocStructure::create_new(String::from("a"), "ab", 10, 1)).unwrap();
    let idx = st.get_structure(10);
    let id_of_b = st.docs[idx].doc.keys()[2].clone();
    st.docs[idx].applyOp(coedit::sync::DocOp::Delete(id_of_b)).unwrap();
    assert_eq!(st.docs[idx].doc.to_string(), "a");
}

#[test]
fn editor_update_frames_decode() {
    let mut buf: Vec<u8> = Vec::new();
    buf.extend(1u32.to_le_bytes());
    buf.extend(3u32.to_le_bytes());
    buf.extend(('Z' as u32).to_le_bytes());
    buf.extend(1u32.to_le_bytes());
    buf.extend(9u32.to_le_bytes());
    let EditorMessage::Update { inserts, deletes } = EditorMessage::deserialize(&buf).unwrap();
    assert_eq!(inserts, vec![(3, 'Z')]);
    assert_eq!(deletes, vec![9]);
    // a surrogate code point is not a character
    let mut bad: Vec<u8> = Vec::new();
    bad.extend(1u32.to_le_bytes());
    bad.extend(0u32.to_le_bytes());
    bad.extend(0xD800u32.to_le_bytes());
    assert!(EditorMessage::deserialize(&bad).is_err());
}

#[test]
fn events_apply_to_replica() {
    let mut doc = Doc::new("ab");
    let mut cursor = doc.keys()[1].clone();
    let mut site: u8 = 4;
    let (quit, out) = handle_event(AppEvent::CursorInsert('z'), &mut doc, &mut cursor, &mut site);
    assert!(!quit);
    assert_eq!(doc.to_string(), "zab");
    match out.unwrap() {
        RemoteEvent::InsertAt(s, p, c) => {
            assert_eq!(s, 4);
            assert_eq!(c, 'z');
            assert_eq!(compare_pid(&p, &cursor), 0);
        }
        _ => panic!("expected an insertion to broadcast"),
    }
    let (quit, _) = handle_event(AppEvent::Quit, &mut doc, &mut cursor, &mut site);
    assert!(quit);
}

#[test]
fn session_steps_become_commands() {
    let mut member = SessionMember::init();
    let start = SessionMessage::Start { document_id: 42, last_sync_time: 7 };
    match member.session_step(start).unwrap() {
        StateCommand::UpsertDoc { document_id } => assert_eq!(document_id, 42),
        other => panic!("wrong command: {:?}", other),
    }
    assert_eq!(member.document_id, 42);
    assert!(member.connection_site_id < 255);
    let d = Doc::new("a");
    let pid = d.keys()[1].clone();
    match member.session_step(SessionMessage::Delete { site: 1, pid }).unwrap() {
        StateCommand::UpdateDoc { document_id, .. } => assert_eq!(document_id, 42),
        other => panic!("wrong command: {:?}", other),
    }
    let bad = SessionMessage::NewSession { site: 1, doc: Doc::new("") };
    assert_eq!(member.session_step(bad).unwrap_err(), StateError::Unsupported);
    match member.flush_changes() {
        StateCommand::FlushChanges { document_id } => assert_eq!(document_id, 42),
        other => panic!("wrong command: {:?}", other),
    }
}
