//! Editor-side events: what a keystroke or a remote frame means for the
//! local replica, and the decision logic that applies one event to the
//! document and says what to broadcast.

use crate::doc::{begin_pid, end_pid, index_of_key, pred_key, Doc};
use crate::pid::{max_depth_of, pid_lt, zero_pos, Pid};
use vstd::prelude::*;

verus! {

/// One event for the local editor loop.
pub enum AppEvent {
    NewSession(u8, Doc),
    CursorInsert(char),
    CursorDelete,
    CursorMove(isize),
    InsertAt(Pid, char),
    DeleteAt(Pid),
    MoveTo(Pid),
    Skip,
    Quit,
}

/// An operation to broadcast to the other sites.
pub enum RemoteEvent {
    InsertAt(u8, Pid, char),
    DeleteAt(u8, Pid),
}

/// What an event needs of the current state to be applied.
pub open spec fn handle_event_pre(ev: AppEvent, doc: Doc, cursor: Pid) -> bool {
    match ev {
        AppEvent::CursorInsert(c) => doc.content_map().contains_key(cursor@) && cursor@
            != begin_pid(),
        AppEvent::CursorDelete => doc.content_map().contains_key(cursor@) && cursor@
            != begin_pid(),
        AppEvent::CursorMove(off) => doc.content_map().contains_key(cursor@),
        AppEvent::InsertAt(pid, c) => 1 <= pid@.len() <= 255 && crate::pid::pid_le(
            begin_pid(),
            pid@,
        ) && crate::pid::pid_le(pid@, end_pid()),
        AppEvent::NewSession(s, d) => d.wf(),
        _ => true,
    }
}

/// Apply one event to the local replica: a local edit mutates the
/// document and names the operation to broadcast; a remote operation is
/// replayed; `Quit` asks the loop to stop.
pub fn handle_event(ev: AppEvent, doc: &mut Doc, cursor: &mut Pid, site: &mut u8) -> (r: (
    bool,
    Option<RemoteEvent>,
))
    requires
        old(doc).wf(),
        handle_event_pre(ev, *old(doc), *old(cursor)),
    ensures
        final(doc).wf(),
        r.0 == (ev is Quit),
        ev is DeleteAt ==> final(doc).content_map() == (if ev->DeleteAt_0@ == begin_pid()
            || ev->DeleteAt_0@ == end_pid() {
            old(doc).content_map()
        } else {
            old(doc).content_map().remove(ev->DeleteAt_0@)
        }),
        ev is InsertAt ==> final(doc).content_map() == old(doc).content_map().insert(
            ev->InsertAt_0@,
            ev->InsertAt_1,
        ),
        ev is NewSession ==> *final(doc) == ev->NewSession_1 && *final(site) == ev->NewSession_0,
        !(ev is NewSession) ==> *final(site) == *old(site),
        (ev is Skip || ev is MoveTo || ev is Quit) ==> *final(doc) == *old(doc) && *final(cursor)
            == *old(cursor),
        ev is CursorInsert ==> ({
            let pred = pred_key(old(doc).atoms@, old(cursor)@);
            &&& (r.1 matches Some(out) ==> out matches RemoteEvent::InsertAt(s, p, cc) && s == *old(
                site,
            ) && cc == ev->CursorInsert_0 && p@ == final(cursor)@ && pid_lt(pred, p@) && pid_lt(
                p@,
                old(cursor)@,
            ) && !old(doc).content_map().contains_key(p@) && final(doc).content_map() == old(
                doc,
            ).content_map().insert(p@, cc))
            &&& (r.1 is None ==> *final(doc) == *old(doc) && *final(cursor) == *old(cursor))
            &&& (max_depth_of(pred, old(cursor)@) + 1 <= 255 && old(cursor)@ != pred.push(
                zero_pos(),
            )) ==> r.1 is Some
        }),
        ev is CursorDelete ==> ({
            &&& final(doc).content_map() == (if old(cursor)@ == end_pid() {
                old(doc).content_map()
            } else {
                old(doc).content_map().remove(old(cursor)@)
            })
            &&& final(cursor)@ == pred_key(old(doc).atoms@, old(cursor)@)
            &&& (r.1 matches Some(out) ==> out matches RemoteEvent::DeleteAt(s, p) && s == *old(
                site,
            ) && p@ == old(cursor)@)
            &&& r.1 is Some
        }),
        ev is CursorMove ==> *final(doc) == *old(doc) && r.1 is None && ({
            let ix = index_of_key(old(doc).atoms@, old(cursor)@);
            if 0 <= ix + ev->CursorMove_0 < old(doc).atoms@.len() {
                final(cursor)@ == old(doc).atoms@[ix + ev->CursorMove_0].pid@
            } else {
                *final(cursor) == *old(cursor)
            }
        }),
{
    match ev {
        AppEvent::NewSession(s, d) => {
            *doc = d;
            *site = s;
            (false, None)
        },
        AppEvent::CursorInsert(c) => {
            let moved = doc.insert_left(Pid(copy_positions(cursor)), c);
            match moved {
                Some(fresh) => {
                    let out = RemoteEvent::InsertAt(
                        *site,
                        Pid(copy_positions(&fresh)),
                        c,
                    );
                    *cursor = fresh;
                    (false, Some(out))
                },
                None => (false, None),
            }
        },
        AppEvent::CursorDelete => {
            let new_place = doc.left(cursor);
            let target = Pid(copy_positions(cursor));
            doc.delete(&target);
            *cursor = new_place;
            (false, Some(RemoteEvent::DeleteAt(*site, target)))
        },
        AppEvent::CursorMove(off) => {
            match doc.offset(cursor, off) {
                Some(p) => {
                    *cursor = p;
                },
                None => {},
            }
            (false, None)
        },
        AppEvent::InsertAt(pid, c) => {
            doc.insert(pid, c);
            (false, None)
        },
        AppEvent::DeleteAt(pid) => {
            doc.delete(&pid);
            (false, None)
        },
        AppEvent::MoveTo(pid) => (false, None),
        AppEvent::Skip => (false, None),
        AppEvent::Quit => (true, None),
    }
}

/// A fresh copy of an identifier's positions.
fn copy_positions(p: &Pid) -> (r: Vec<crate::pos::Pos>)
    ensures
        r@ == p@,
{
    let n = p.0.len();
    let mut v: Vec<crate::pos::Pos> = Vec::new();
    let mut j: usize = 0;
    while j < n
        invariant
            n == p@.len(),
            0 <= j <= n,
            v@.len() == j,
            forall|k: int| 0 <= k < j ==> v@[k] == p@[k],
        decreases n - j,
    {
        v.push(p.0[j]);
        j = j + 1;
    }
    proof {
        assert(v@ =~= p@);
    }
    v
}

} // verus!
