//! The state manager: the single authoritative owner of every open
//! document. Commands arrive one at a time over a queue; the functions
//! here decide what each command does to the in-memory state, and give
//! the surrounding runtime the bytes it must reply with or persist.

use crate::doc::{begin_pid, depths_ok, doc_bytes, end_pid, lemma_begin_min, sorted_atoms, Doc};
use crate::pid::{
    compare_pid, lemma_pid_lt_transitive, lemma_pid_lt_trichotomy, pid_le, pid_lt, Pid,
};
use crate::session::SessionMessage;
use crate::sync::{DocOp, DocSyncInfo, SyncResponses};
use crate::wire::WireError;
use vstd::bytes::{spec_u128_to_le_bytes, spec_u64_to_le_bytes};
use vstd::prelude::*;

verus! {

/// A named, durable document: its identity, when it last changed, the
/// name its backing files are derived from, and its contents.
#[derive(Debug, Clone)]
pub struct DocStructure {
    pub id: u128,
    pub last_modified: u64,
    pub name: String,
    pub doc: Doc,
}

/// Why a command could not be carried out; the state is unchanged when
/// one of these comes back.
#[derive(Debug, Clone, Copy, PartialEq, Eq, Structural)]
pub enum StateError {
    /// The command names a document this server does not hold.
    UnknownDoc,
    /// An operation's identifier does not fit the document model.
    InvalidOp,
    /// No free timestamp is left above the requested one.
    TimeExhausted,
    /// The message has no meaning in this direction of the protocol.
    Unsupported,
}

/// A command for the state manager.
#[derive(Debug, Clone)]
pub enum StateCommand {
    GetSyncFullDoc { document_id: u128 },
    GetSyncList { last_sync_time: u64 },
    UpdateDoc { document_id: u128, op: DocOp },
    UpsertDoc { document_id: u128 },
    DeleteDoc { document_id: u128 },
    ChangeName { document_id: u128, name: String },
    FlushChanges { document_id: u128 },
}

/// The process-wide collection of open documents.
#[derive(Debug)]
pub struct State {
    pub docs: Vec<DocStructure>,
}

/// The durable form of a document structure: its id, its timestamp, then
/// every entry of its contents.
pub open spec fn structure_bytes_of(ds: DocStructure) -> Seq<u8> {
    spec_u128_to_le_bytes(ds.id) + spec_u64_to_le_bytes(ds.last_modified) + doc_bytes(
        ds.doc.atoms@,
    )
}

impl DocStructure {
    /// Well-formedness: the contents are a document.
    pub open spec fn wf(self) -> bool {
        self.doc.wf()
    }

    /// The contents.
    pub fn get_doc(&self) -> (r: &Doc)
        ensures
            r == self.doc,
    {
        &self.doc
    }

    /// Apply one operation to the contents. An insertion whose identifier
    /// cannot live between the sentinels is refused and changes nothing.
    #[allow(non_snake_case)]
    pub fn applyOp(&mut self, op: DocOp) -> (r: Result<(), StateError>)
        requires
            old(self).wf(),
        ensures
            final(self).wf(),
            final(self).id == old(self).id,
            final(self).last_modified == old(self).last_modified,
            final(self).name == old(self).name,
            r is Ok ==> final(self).doc.content_map() == match op {
                DocOp::Insert(pid, c) => old(self).doc.content_map().insert(pid@, c),
                DocOp::Delete(pid) => if pid@ == begin_pid() || pid@ == end_pid() {
                    old(self).doc.content_map()
                } else {
                    old(self).doc.content_map().remove(pid@)
                },
            },
            r is Err ==> *final(self) == *old(self) && r->Err_0 == StateError::InvalidOp && (
            op matches DocOp::Insert(pid, c) && !(1 <= pid@.len() <= 255 && pid_le(
                begin_pid(),
                pid@,
            ) && pid_le(pid@, end_pid()))),
    {
        match op {
            DocOp::Insert(pid, c) => {
                if pid.0.len() < 1 || pid.0.len() > 255 {
                    return Err(StateError::InvalidOp);
                }
                let cb = compare_pid(&self.doc.atoms[0].pid, &pid);
                let ce = compare_pid(&pid, &self.doc.atoms[self.doc.atoms.len() - 1].pid);
                if cb <= 0 && ce <= 0 {
                    self.doc.insert(pid, c);
                    Ok(())
                } else {
                    Err(StateError::InvalidOp)
                }
            },
            DocOp::Delete(pid) => {
                self.doc.delete(&pid);
                Ok(())
            },
        }
    }

    /// Build a fresh document structure from plain text.
    pub fn create_new(name: String, contents: &str, id: u128, timestamp: u64) -> (r: DocStructure)
        requires
            contents@.len() <= 0xFFFF_FFFF,
        ensures
            r.wf(),
            r.id == id,
            r.last_modified == timestamp,
            r.name == name,
            crate::doc::visible(r.doc.atoms@) == contents@,
    {
        DocStructure { id, last_modified: timestamp, name, doc: Doc::new(contents) }
    }

    /// The durable form of this structure.
    pub fn structure_bytes(&self) -> (r: Vec<u8>)
        requires
            depths_ok(self.doc.atoms@),
        ensures
            r@ == structure_bytes_of(*self),
    {
        let mut buf: Vec<u8> = Vec::new();
        crate::wire::write_u128(&mut buf, self.id);
        crate::wire::write_u64(&mut buf, self.last_modified);
        self.doc.write_bytes_tobuf(&mut buf);
        proof {
            assert(buf@ =~= structure_bytes_of(*self));
        }
        buf
    }

    /// Rebuild a structure from its durable form; rebuilding fails only
    /// on a truncated header or an atom stream that is malformed or not a
    /// sentinel-bounded document.
    pub fn read_existing(bytes: &Vec<u8>, name: String) -> (r: Result<DocStructure, WireError>)
        ensures
            r is Err ==> bytes@.len() < 24 || (crate::doc::dec_atoms_eof(bytes@.skip(24))
                matches Some(rs) ==> !crate::doc::sentinels_ok(crate::doc::map_of_records(rs))),
            r is Ok ==> {
                let ds = r->Ok_0;
                &&& ds.wf()
                &&& ds.name == name
                &&& bytes@.len() >= 24
                &&& ds.id == vstd::bytes::spec_u128_from_le_bytes(bytes@.subrange(0, 16))
                &&& ds.last_modified == vstd::bytes::spec_u64_from_le_bytes(
                    bytes@.subrange(16, 24),
                )
                &&& (crate::doc::dec_atoms_eof(bytes@.skip(24)) matches Some(rs)
                    && ds.doc.content_map() == crate::doc::map_of_records(rs))
            },
    {
        let mut i: usize = 0;
        let id = match crate::wire::read_u128(bytes, &mut i) {
            Ok(v) => v,
            Err(e) => {
                return Err(e);
            },
        };
        let last_modified = match crate::wire::read_u64(bytes, &mut i) {
            Ok(v) => v,
            Err(e) => {
                return Err(e);
            },
        };
        let doc = match Doc::from_reader_eof(bytes, &mut i) {
            Ok(d) => d,
            Err(e) => {
                return Err(e);
            },
        };
        proof {
            assert(bytes@.subrange(0, 16) =~= bytes@.subrange(0int, 16int));
            assert(bytes@.subrange(16, 24) =~= bytes@.subrange(16int, 24int));
        }
        Ok(DocStructure { id, last_modified, name, doc })
    }

    /// Path of the structured side file for this document's name.
    pub fn get_structure_path(&self) -> (r: String)
        ensures
            r@ == self.name@ + ".md.structure"@,
    {
        self.name.clone().concat(".md.structure")
    }

    /// Path of the plain-text file for this document's name.
    pub fn get_plainmd_path(&self) -> (r: String)
        ensures
            r@ == self.name@ + ".md"@,
    {
        self.name.clone().concat(".md")
    }

    /// Record the new name; the runtime renames the backing files first.
    pub fn set_name(&mut self, name: String)
        ensures
            final(self).name == name,
            final(self).id == old(self).id,
            final(self).last_modified == old(self).last_modified,
            final(self).doc == old(self).doc,
    {
        self.name = name;
    }
}

/// Rebuilding a structure from its own durable form yields its identity,
/// its timestamp, and exactly its contents: flushing then reloading loses
/// nothing.
pub proof fn lemma_structure_round_trip(ds: DocStructure)
    requires
        ds.wf(),
    ensures
        ({
            let bs = structure_bytes_of(ds);
            &&& bs.len() >= 24
            &&& vstd::bytes::spec_u128_from_le_bytes(bs.subrange(0, 16)) == ds.id
            &&& vstd::bytes::spec_u64_from_le_bytes(bs.subrange(16, 24)) == ds.last_modified
            &&& (crate::doc::dec_atoms_eof(bs.skip(24)) matches Some(rs)
                && crate::doc::map_of_records(rs) == ds.doc.content_map())
        }),
{
    vstd::bytes::lemma_auto_spec_u128_to_from_le_bytes();
    vstd::bytes::lemma_auto_spec_u64_to_from_le_bytes();
    let bs = structure_bytes_of(ds);
    let li = spec_u128_to_le_bytes(ds.id);
    let le = spec_u64_to_le_bytes(ds.last_modified);
    let head = li + le;
    assert(bs.subrange(0, 16) =~= li) by {
        assert forall|j: int| 0 <= j < 16 implies #[trigger] bs.subrange(0, 16)[j] == li[j] by {
            assert(bs.subrange(0, 16)[j] == bs[j]);
            assert(bs[j] == head[j]);
        }
        assert(bs.subrange(0, 16).len() == 16);
    }
    assert(bs.subrange(16, 24) =~= le) by {
        assert forall|j: int| 0 <= j < 8 implies #[trigger] bs.subrange(16, 24)[j] == le[j] by {
            assert(bs.subrange(16, 24)[j] == bs[16 + j]);
            assert(bs[16 + j] == head[16 + j]);
            assert(head[16 + j] == le[j]);
        }
        assert(bs.subrange(16, 24).len() == 8);
    }
    assert(bs.skip(24) =~= doc_bytes(ds.doc.atoms@)) by {
        assert forall|j: int| 0 <= j < bs.len() - 24 implies #[trigger] bs.skip(24)[j]
            == doc_bytes(ds.doc.atoms@)[j] by {
            assert(bs.skip(24)[j] == bs[24 + j]);
        }
        assert(bs.skip(24).len() == bs.len() - 24);
    }
    crate::doc::lemma_dec_atoms_eof_round_trip(ds.doc.atoms@);
    crate::doc::lemma_records_map(ds.doc.atoms@);
}

/// Some document carries this timestamp.
pub open spec fn time_held(docs: Seq<DocStructure>, t: u64) -> bool {
    exists|k: int| 0 <= k < docs.len() && (#[trigger] docs[k]).last_modified == t
}

/// How many documents carry a timestamp in `[lo, hi)`.
pub open spec fn count_in(docs: Seq<DocStructure>, lo: int, hi: int) -> int
    decreases docs.len(),
{
    if docs.len() == 0 {
        0
    } else {
        count_in(docs.drop_last(), lo, hi) + if lo <= docs.last().last_modified < hi {
            1int
        } else {
            0int
        }
    }
}

/// The count lies between zero and the number of documents.
proof fn lemma_count_bounds(docs: Seq<DocStructure>, lo: int, hi: int)
    ensures
        0 <= count_in(docs, lo, hi) <= docs.len(),
    decreases docs.len(),
{
    if docs.len() > 0 {
        lemma_count_bounds(docs.drop_last(), lo, hi);
    }
}

/// Counting splits at any point of the range.
proof fn lemma_count_split(docs: Seq<DocStructure>, lo: int, mid: int, hi: int)
    requires
        lo <= mid <= hi,
    ensures
        count_in(docs, lo, hi) == count_in(docs, lo, mid) + count_in(docs, mid, hi),
    decreases docs.len(),
{
    if docs.len() > 0 {
        lemma_count_split(docs.drop_last(), lo, mid, hi);
    }
}

/// A document whose timestamp is `t` is counted in any range holding `t`.
proof fn lemma_count_member(docs: Seq<DocStructure>, t: int, hi: int)
    requires
        t < hi,
        exists|k: int| 0 <= k < docs.len() && (#[trigger] docs[k]).last_modified == t,
    ensures
        count_in(docs, t, hi) >= 1,
    decreases docs.len(),
{
    lemma_count_bounds(docs.drop_last(), t, hi);
    if docs.last().last_modified == t {
    } else {
        let k = choose|k: int| 0 <= k < docs.len() && (#[trigger] docs[k]).last_modified == t;
        assert(k < docs.len() - 1);
        assert(docs.drop_last()[k].last_modified == t);
        lemma_count_member(docs.drop_last(), t, hi);
    }
}

impl State {
    /// Every document is well-formed and carries a unique identity and a
    /// unique timestamp.
    pub open spec fn wf(self) -> bool {
        &&& forall|i: int| 0 <= i < self.docs@.len() ==> (#[trigger] self.docs@[i]).wf()
        &&& forall|i: int, j: int|
            0 <= i < j < self.docs@.len() ==> (#[trigger] self.docs@[i]).id
                != (#[trigger] self.docs@[j]).id
        &&& forall|i: int, j: int|
            0 <= i < j < self.docs@.len() ==> (#[trigger] self.docs@[i]).last_modified
                != (#[trigger] self.docs@[j]).last_modified
    }

    /// Whether some document carries the identity.
    pub open spec fn has_id(self, id: u128) -> bool {
        exists|i: int| 0 <= i < self.docs@.len() && (#[trigger] self.docs@[i]).id == id
    }

    /// An empty collection.
    pub fn empty() -> (r: State)
        ensures
            r.wf(),
            r.docs@.len() == 0,
    {
        State { docs: Vec::new() }
    }

    /// Index of the document with the given identity.
    fn find(&self, document_id: u128) -> (r: Option<usize>)
        ensures
            r is Some ==> r->0 < self.docs@.len() && self.docs@[r->0 as int].id == document_id,
            r is None ==> !self.has_id(document_id),
    {
        let n = self.docs.len();
        let mut j: usize = 0;
        while j < n
            invariant
                n == self.docs@.len(),
                0 <= j <= n,
                forall|k: int| 0 <= k < j ==> (#[trigger] self.docs@[k]).id != document_id,
            decreases n - j,
        {
            if self.docs[j].id == document_id {
                return Some(j);
            }
            j = j + 1;
        }
        None
    }

    /// Add a freshly loaded or created document, bumping its timestamp
    /// past any collision so timestamps stay unique. Success is owed
    /// whenever fewer documents are held than timestamps remain at or
    /// above the given one: the bumps can skip at most one existing
    /// document each.
    pub fn add_doc(&mut self, ds: DocStructure) -> (r: Result<(), StateError>)
        requires
            old(self).wf(),
            ds.wf(),
            !old(self).has_id(ds.id),
        ensures
            old(self).docs@.len() <= u64::MAX - ds.last_modified ==> r is Ok,
            final(self).wf(),
            r is Ok ==> {
                &&& final(self).docs@.len() == old(self).docs@.len() + 1
                &&& forall|i: int|
                    0 <= i < old(self).docs@.len() ==> final(self).docs@[i] == old(
                        self,
                    ).docs@[i]
                &&& final(self).docs@.last().id == ds.id
                &&& final(self).docs@.last().name == ds.name
                &&& final(self).docs@.last().doc == ds.doc
                &&& final(self).docs@.last().last_modified >= ds.last_modified
                &&& forall|t: u64|
                    ds.last_modified <= t < final(self).docs@.last().last_modified
                        ==> #[trigger] time_held(old(self).docs@, t)
                &&& final(self).has_id(ds.id)
            },
            r is Err ==> *final(self) == *old(self) && r->Err_0 == StateError::TimeExhausted,
    {
        let mut cur = ds;
        proof {
            lemma_count_bounds(self.docs@, ds.last_modified as int, ds.last_modified as int);
        }
        loop
            invariant_except_break
                self.wf(),
                *self == *old(self),
                cur.wf(),
                !self.has_id(cur.id),
                cur.id == ds.id,
                cur.name == ds.name,
                cur.doc == ds.doc,
                cur.last_modified >= ds.last_modified,
                cur.last_modified - ds.last_modified <= count_in(
                    self.docs@,
                    ds.last_modified as int,
                    cur.last_modified as int,
                ),
                forall|t: u64|
                    ds.last_modified <= t < cur.last_modified ==> #[trigger] time_held(
                        self.docs@,
                        t,
                    ),
            ensures
                self.wf(),
                *self == *old(self),
                cur.wf(),
                !self.has_id(cur.id),
                cur.id == ds.id,
                cur.name == ds.name,
                cur.doc == ds.doc,
                cur.last_modified >= ds.last_modified,
                forall|t: u64|
                    ds.last_modified <= t < cur.last_modified ==> #[trigger] time_held(
                        self.docs@,
                        t,
                    ),
                forall|k: int|
                    0 <= k < self.docs@.len() ==> (#[trigger] self.docs@[k]).last_modified
                        != cur.last_modified,
            decreases u64::MAX - cur.last_modified,
        {
            let mut taken = false;
            let n = self.docs.len();
            let mut j: usize = 0;
            while j < n
                invariant
                    n == self.docs@.len(),
                    0 <= j <= n,
                    taken <==> exists|k: int|
                        0 <= k < j && (#[trigger] self.docs@[k]).last_modified
                            == cur.last_modified,
                decreases n - j,
            {
                if self.docs[j].last_modified == cur.last_modified {
                    taken = true;
                }
                j = j + 1;
            }
            if !taken {
                break ;
            }
            proof {
                // the occupied timestamp is one more document counted in
                // the climbed range
                let lo = ds.last_modified as int;
                let t = cur.last_modified as int;
                lemma_count_bounds(self.docs@, lo, t);
                lemma_count_split(self.docs@, lo, t, t + 1);
                lemma_count_member(self.docs@, t, t + 1);
            }
            if cur.last_modified == u64::MAX {
                proof {
                    // more documents than timestamps were climbed past
                    let lo = ds.last_modified as int;
                    lemma_count_bounds(self.docs@, lo, u64::MAX + 1);
                }
                return Err(StateError::TimeExhausted);
            }
            cur.last_modified = cur.last_modified + 1;
        }
        let ds = cur;
        let ghost pre = self.docs@;
        let ghost dsg = ds;
        self.docs.push(ds);
        proof {
            assert forall|i: int, j: int|
                0 <= i < j < self.docs@.len() implies (#[trigger] self.docs@[i]).id
                != (#[trigger] self.docs@[j]).id by {
                if j == self.docs@.len() - 1 {
                    assert(self.docs@[j] == dsg);
                    if self.docs@[i].id == dsg.id {
                        assert(pre[i].id == dsg.id);
                        assert(old(self).has_id(dsg.id));
                    }
                } else {
                    assert(self.docs@[i] == pre[i] && self.docs@[j] == pre[j]);
                }
            }
            assert forall|i: int, j: int|
                0 <= i < j < self.docs@.len() implies (#[trigger] self.docs@[i]).last_modified
                != (#[trigger] self.docs@[j]).last_modified by {
                if j == self.docs@.len() - 1 {
                    assert(self.docs@[j] == dsg);
                } else {
                    assert(self.docs@[i] == pre[i] && self.docs@[j] == pre[j]);
                }
            }
            assert forall|i: int| 0 <= i < self.docs@.len() implies (
            #[trigger] self.docs@[i]).wf() by {
                if i < self.docs@.len() - 1 {
                    assert(self.docs@[i] == pre[i]);
                }
            }
            assert(self.docs@.last() == dsg);
            assert(self.has_id(dsg.id)) by {
                assert(self.docs@[self.docs@.len() - 1].id == dsg.id);
            }
        }
        Ok(())
    }

    /// The contents of the document with the given identity.
    pub fn get_doc(&self, document_id: u128) -> (r: &Doc)
        requires
            self.has_id(document_id),
        ensures
            exists|i: int|
                0 <= i < self.docs@.len() && (#[trigger] self.docs@[i]).id == document_id && r
                    == self.docs@[i].doc,
    {
        let idx = match self.find(document_id) {
            Some(i) => i,
            None => {
                proof {
                    assert(false);
                }
                0
            },
        };
        &self.docs[idx].doc
    }

    /// Index of the structure with the given identity, for callers that
    /// go on to mutate it in place.
    pub fn get_structure(&self, document_id: u128) -> (r: usize)
        requires
            self.has_id(document_id),
        ensures
            r < self.docs@.len(),
            self.docs@[r as int].id == document_id,
    {
        match self.find(document_id) {
            Some(i) => i,
            None => {
                proof {
                    assert(false);
                }
                0
            },
        }
    }

    /// The listing of every document, ordered by last-modified time
    /// ascending; timestamps are unique, so the order is strict and the
    /// same at every reader.
    pub fn sync_list(&self) -> (r: Vec<DocSyncInfo>)
        requires
            times_unique(self.docs@),
        ensures
            r@.len() == self.docs@.len(),
            list_asc(r@),
            list_from_docs(r@, self.docs@),
            docs_in_list(r@, self.docs@),
    {
        let n = self.docs.len();
        let mut r: Vec<DocSyncInfo> = Vec::new();
        // which document each listed entry came from, and where each
        // document's entry sits
        let ghost mut perm: Seq<int> = Seq::empty();
        let ghost mut pos: Seq<int> = Seq::empty();
        let mut j: usize = 0;
        while j < n
            invariant
                times_unique(self.docs@),
                n == self.docs@.len(),
                0 <= j <= n,
                r@.len() == j,
                perm.len() == j,
                pos.len() == j,
                list_asc(r@),
                forall|i: int|
                    0 <= i < j ==> 0 <= #[trigger] perm[i] < j && r@[i].last_mod_time
                        == self.docs@[perm[i]].last_modified && r@[i].document_id
                        == self.docs@[perm[i]].id,
                forall|k: int|
                    0 <= k < j ==> 0 <= #[trigger] pos[k] < j && r@[pos[k]].last_mod_time
                        == self.docs@[k].last_modified && r@[pos[k]].document_id
                        == self.docs@[k].id,
            decreases n - j,
        {
            let e = DocSyncInfo {
                last_mod_time: self.docs[j].last_modified,
                document_id: self.docs[j].id,
            };
            // insertion position by timestamp
            let m = r.len();
            let mut p: usize = 0;
            while p < m && r[p].last_mod_time < e.last_mod_time
                invariant
                    m == r@.len(),
                    0 <= p <= m,
                    forall|a: int| 0 <= a < p ==> (#[trigger] r@[a]).last_mod_time
                        < e.last_mod_time,
                decreases m - p,
            {
                p = p + 1;
            }
            proof {
                // the new timestamp is fresh among those already listed
                if p < m && r@[p as int].last_mod_time == e.last_mod_time {
                    let k = perm[p as int];
                    assert(self.docs@[k].last_modified == self.docs@[j as int].last_modified);
                    assert(false);
                }
            }
            let ghost rpre = r@;
            r.insert(p, e);
            proof {
                lemma_sync_insert_asc(rpre, r@, p as int, e);
                let permpre = perm;
                let pospre = pos;
                perm = perm.insert(p as int, j as int);
                pos = pos.map_values(
                    |x: int|
                        if x >= p {
                            x + 1
                        } else {
                            x
                        },
                ).push(p as int);
                assert forall|i: int|
                    0 <= i < j + 1 implies 0 <= #[trigger] perm[i] < j + 1 && r@[i].last_mod_time
                    == self.docs@[perm[i]].last_modified && r@[i].document_id
                    == self.docs@[perm[i]].id by {
                    if i < p {
                        assert(perm[i] == permpre[i]);
                        assert(r@[i] == rpre[i]);
                    } else if i == p {
                        assert(perm[i] == j as int);
                        assert(r@[i] == e);
                    } else {
                        assert(perm[i] == permpre[i - 1]);
                        assert(r@[i] == rpre[i - 1]);
                    }
                }
                assert forall|k: int|
                    0 <= k < j + 1 implies 0 <= #[trigger] pos[k] < j + 1
                    && r@[pos[k]].last_mod_time == self.docs@[k].last_modified
                    && r@[pos[k]].document_id == self.docs@[k].id by {
                    if k < j {
                        assert(pos[k] == if pospre[k] >= p {
                            pospre[k] + 1
                        } else {
                            pospre[k]
                        });
                        if pospre[k] >= p {
                            assert(r@[pospre[k] + 1] == rpre[pospre[k]]);
                        } else {
                            assert(r@[pospre[k]] == rpre[pospre[k]]);
                        }
                    } else {
                        assert(pos[k] == p as int);
                        assert(r@[p as int] == e);
                    }
                }
            }
            j = j + 1;
        }
        proof {
            let pairs = self.docs@.map_values(|d: DocStructure| pair_of(d));
            assert forall|i: int| 0 <= i < r@.len() implies pairs.contains(#[trigger] r@[i]) by {
                let k = perm[i];
                assert(pairs[k] == pair_of(self.docs@[k]));
                assert(pairs[k] == r@[i]);
            }
            assert forall|k: int| 0 <= k < self.docs@.len() implies r@.contains(
                pair_of(#[trigger] self.docs@[k]),
            ) by {
                let i = pos[k];
                assert(r@[i] == pair_of(self.docs@[k]));
            }
        }
        r
    }
}

/// Timestamps are pairwise distinct across documents.
pub open spec fn times_unique(docs: Seq<DocStructure>) -> bool {
    forall|a: int, b: int|
        0 <= a < b < docs.len() ==> (#[trigger] docs[a]).last_modified
            != (#[trigger] docs[b]).last_modified
}

/// Listed times are strictly ascending.
pub open spec fn list_asc(r: Seq<DocSyncInfo>) -> bool {
    forall|a: int, b: int|
        0 <= a < b < r.len() ==> (#[trigger] r[a]).last_mod_time < (#[trigger] r[b]).last_mod_time
}

/// The listing entry of one document.
pub open spec fn pair_of(ds: DocStructure) -> DocSyncInfo {
    DocSyncInfo { last_mod_time: ds.last_modified, document_id: ds.id }
}

/// Every listed entry is the pair of one of the documents.
pub open spec fn list_from_docs(r: Seq<DocSyncInfo>, docs: Seq<DocStructure>) -> bool {
    forall|i: int| 0 <= i < r.len() ==> docs.map_values(|d: DocStructure| pair_of(d)).contains(
        #[trigger] r[i],
    )
}

/// Each document's pair appears in the listing.
pub open spec fn docs_in_list(r: Seq<DocSyncInfo>, docs: Seq<DocStructure>) -> bool {
    forall|k: int| 0 <= k < docs.len() ==> r.contains(pair_of(#[trigger] docs[k]))
}

/// The listing stays strictly ascending across the insertion.
proof fn lemma_sync_insert_asc(rpre: Seq<DocSyncInfo>, r2: Seq<DocSyncInfo>, p: int, e: DocSyncInfo)
    requires
        0 <= p <= rpre.len(),
        r2 == rpre.insert(p, e),
        list_asc(rpre),
        forall|a: int| 0 <= a < p ==> (#[trigger] rpre[a]).last_mod_time < e.last_mod_time,
        p < rpre.len() ==> !(rpre[p].last_mod_time < e.last_mod_time),
        p < rpre.len() ==> rpre[p].last_mod_time != e.last_mod_time,
    ensures
        list_asc(r2),
{
    assert forall|a: int, b: int|
        0 <= a < b < r2.len() implies (#[trigger] r2[a]).last_mod_time
        < (#[trigger] r2[b]).last_mod_time by {
        if a < p {
            assert(r2[a] == rpre[a]);
        } else if a > p {
            assert(r2[a] == rpre[a - 1]);
        }
        if b < p {
            assert(r2[b] == rpre[b]);
        } else if b > p {
            assert(r2[b] == rpre[b - 1]);
        }
        if a == p && b > p {
            assert(rpre[p].last_mod_time <= rpre[b - 1].last_mod_time);
        }
    }
}


/// One client session: which document its frames apply to, and the site
/// tag assigned to the connection when it starts. Site tags are random
/// bytes, so their uniqueness across live connections is only
/// probabilistic.
#[derive(Debug, Clone, Copy, PartialEq, Eq, Structural)]
pub struct SessionMember {
    pub document_id: u128,
    pub connection_site_id: u8,
}

impl SessionMember {
    /// A session that has not yet seen its start frame.
    pub fn init() -> (r: SessionMember)
        ensures
            r.document_id == 0,
            r.connection_site_id == 0,
    {
        SessionMember { document_id: 0, connection_site_id: 0 }
    }

    /// Decide what one session frame means: the command to hand the state
    /// manager, or a typed refusal for a frame with no meaning in this
    /// direction. A start frame binds the session to its document and
    /// draws the connection's site tag.
    pub fn session_step(&mut self, msg: SessionMessage) -> (r: Result<StateCommand, StateError>)
        ensures
            match msg {
                SessionMessage::Start { document_id, last_sync_time } => {
                    &&& final(self).document_id == document_id
                    &&& final(self).connection_site_id < 255
                    &&& r is Ok
                    &&& (r->Ok_0 matches StateCommand::UpsertDoc { document_id: d } && d
                        == document_id)
                },
                SessionMessage::Insert { site, pid, c } => {
                    &&& *final(self) == *old(self)
                    &&& r is Ok
                    &&& (r->Ok_0 matches StateCommand::UpdateDoc { document_id, op }
                        && document_id == old(self).document_id && (op matches DocOp::Insert(
                        p,
                        cc,
                    ) && p@ == pid@ && cc == c))
                },
                SessionMessage::Delete { site, pid } => {
                    &&& *final(self) == *old(self)
                    &&& r is Ok
                    &&& (r->Ok_0 matches StateCommand::UpdateDoc { document_id, op }
                        && document_id == old(self).document_id && (op matches DocOp::Delete(p)
                        && p@ == pid@))
                },
                SessionMessage::ChangeName { name: n } => {
                    &&& *final(self) == *old(self)
                    &&& r is Ok
                    &&& (r->Ok_0 matches StateCommand::ChangeName { document_id, name }
                        && document_id == old(self).document_id && name@ == n@)
                },
                SessionMessage::NewSession { site, doc } => {
                    &&& *final(self) == *old(self)
                    &&& r is Err && r->Err_0 == StateError::Unsupported
                },
            },
    {
        match msg {
            SessionMessage::Start { document_id, last_sync_time } => {
                self.document_id = document_id;
                self.connection_site_id = crate::pid::random_in_range(0, 255) as u8;
                Ok(StateCommand::UpsertDoc { document_id })
            },
            SessionMessage::Insert { site, pid, c } => Ok(
                StateCommand::UpdateDoc {
                    document_id: self.document_id,
                    op: DocOp::Insert(pid, c),
                },
            ),
            SessionMessage::Delete { site, pid } => Ok(
                StateCommand::UpdateDoc { document_id: self.document_id, op: DocOp::Delete(pid) },
            ),
            SessionMessage::ChangeName { name } => Ok(
                StateCommand::ChangeName { document_id: self.document_id, name },
            ),
            SessionMessage::NewSession { site, doc } => {
                // snapshots flow from server to client, not back
                Err(StateError::Unsupported)
            },
        }
    }

    /// The command that persists this session's document.
    pub fn flush_changes(&self) -> (r: StateCommand)
        ensures
            r matches StateCommand::FlushChanges { document_id } && document_id
                == self.document_id,
    {
        StateCommand::FlushChanges { document_id: self.document_id }
    }
}

} // verus!
