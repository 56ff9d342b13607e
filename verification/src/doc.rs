//! The document model: an ordered map from identifiers to single
//! characters, bounded by two fixed sentinel entries. The order of the keys
//! is exactly the left-to-right text order; all mutation is keyed by
//! identifier, which makes concurrent edits commute.

use crate::pid::{
    compare_pid, generate_between_pids, lemma_pid_lt_transitive, lemma_pid_lt_trichotomy,
    max_depth_of, pid_le, pid_lt, zero_pos, Pid,
};
use crate::pos::Pos;
use crate::wire::{
    char_field_bytes, dec_char_field, read_char_field, read_u8, write_char_field, WireError,
};
use crate::pid::{dec_positions, lemma_dec_positions_round_trip, lemma_pid_body_bytes_len,
    pid_body_bytes};
use crate::LBASE;
use vstd::prelude::*;

verus! {

/// One entry of a document: an identifier and the character it carries.
#[derive(Debug, Clone)]
pub struct Atom {
    pub pid: Pid,
    pub ch: char,
}

/// A document: entries sorted strictly by identifier order, the begin
/// sentinel first and the end sentinel last, plus the site tag used for
/// local allocations.
#[derive(Debug, Clone)]
pub struct Doc {
    pub atoms: Vec<Atom>,
    pub site: u8,
}

/// Identifier of the begin sentinel.
pub open spec fn begin_pid() -> Seq<Pos> {
    seq![Pos { ident: 0, site: 0 }]
}

/// Identifier of the end sentinel.
pub open spec fn end_pid() -> Seq<Pos> {
    seq![Pos { ident: LBASE, site: 0 }]
}

/// Entries strictly sorted by identifier order.
pub open spec fn sorted_atoms(s: Seq<Atom>) -> bool {
    forall|i: int, j: int|
        0 <= i < j < s.len() ==> pid_lt(#[trigger] s[i].pid@, #[trigger] s[j].pid@)
}

/// Every identifier fits the wire format: between one and 255 levels.
pub open spec fn depths_ok(s: Seq<Atom>) -> bool {
    forall|i: int| 0 <= i < s.len() ==> 1 <= (#[trigger] s[i].pid@).len() <= 255
}

/// The contents as a map from identifier to character.
pub open spec fn doc_map(s: Seq<Atom>) -> Map<Seq<Pos>, char>
    decreases s.len(),
{
    if s.len() == 0 {
        Map::empty()
    } else {
        doc_map(s.drop_last()).insert(s.last().pid@, s.last().ch)
    }
}

/// The visible text: the characters of the entries strictly between the
/// sentinels, in entry order.
pub open spec fn visible(s: Seq<Atom>) -> Seq<char>
    decreases s.len(),
{
    if s.len() == 0 {
        Seq::empty()
    } else if pid_lt(begin_pid(), s.last().pid@) && pid_lt(s.last().pid@, end_pid()) {
        visible(s.drop_last()).push(s.last().ch)
    } else {
        visible(s.drop_last())
    }
}

impl Doc {
    /// The whole well-formedness invariant of a document.
    pub open spec fn wf(self) -> bool {
        &&& self.atoms@.len() >= 2
        &&& self.atoms@[0].pid@ == begin_pid()
        &&& self.atoms@.last().pid@ == end_pid()
        &&& sorted_atoms(self.atoms@)
        &&& depths_ok(self.atoms@)
    }

    /// The contents of this document as a map.
    pub open spec fn content_map(self) -> Map<Seq<Pos>, char> {
        doc_map(self.atoms@)
    }
}

/// The begin sentinel's identifier is the least identifier.
pub proof fn lemma_begin_min(p: Seq<Pos>)
    requires
        p.len() >= 1,
    ensures
        pid_le(begin_pid(), p),
{
    let b = begin_pid();
    if p[0] == b[0] {
        if p.len() == 1 {
            assert(p =~= b);
        } else {
            assert(b.drop_first().len() == 0);
            assert(p.drop_first().len() > 0);
            assert(pid_lt(b.drop_first(), p.drop_first()));
            assert(pid_lt(b, p));
        }
    } else {
        assert(b[0].ident == 0 && b[0].site == 0);
        assert(crate::pos::pos_lt(b[0], p[0]));
        assert(pid_lt(b, p));
    }
}

/// Strictly sorted entries have pairwise distinct identifiers.
pub proof fn lemma_sorted_distinct(s: Seq<Atom>)
    requires
        sorted_atoms(s),
    ensures
        forall|i: int, j: int|
            0 <= i < s.len() && 0 <= j < s.len() && i != j ==> (#[trigger] s[i].pid@)
                != (#[trigger] s[j].pid@),
{
    assert forall|i: int, j: int|
        0 <= i < s.len() && 0 <= j < s.len() && i != j implies (#[trigger] s[i].pid@)
        != (#[trigger] s[j].pid@) by {
        if i < j {
            assert(pid_lt(s[i].pid@, s[j].pid@));
            lemma_pid_lt_trichotomy(s[i].pid@, s[j].pid@);
        } else {
            assert(pid_lt(s[j].pid@, s[i].pid@));
            lemma_pid_lt_trichotomy(s[j].pid@, s[i].pid@);
        }
    }
}

/// A key is in the map exactly when some entry carries it.
pub proof fn lemma_doc_map_contains(s: Seq<Atom>, k: Seq<Pos>)
    ensures
        doc_map(s).contains_key(k) <==> exists|i: int| 0 <= i < s.len() && (#[trigger] s[i].pid@)
            == k,
    decreases s.len(),
{
    if s.len() == 0 {
    } else {
        lemma_doc_map_contains(s.drop_last(), k);
        if s.last().pid@ == k {
            assert(s[s.len() - 1].pid@ == k);
        } else if doc_map(s).contains_key(k) {
            let i = choose|i: int|
                0 <= i < s.drop_last().len() && (#[trigger] s.drop_last()[i].pid@) == k;
            assert(s[i].pid@ == k);
        } else if exists|i: int| 0 <= i < s.len() && (#[trigger] s[i].pid@) == k {
            let i = choose|i: int| 0 <= i < s.len() && (#[trigger] s[i].pid@) == k;
            assert(i < s.len() - 1);
            assert(s.drop_last()[i].pid@ == k);
        }
    }
}

/// With distinct identifiers, each entry is what the map holds at its key.
pub proof fn lemma_doc_map_index(s: Seq<Atom>, i: int)
    requires
        0 <= i < s.len(),
        forall|a: int, b: int|
            0 <= a < s.len() && 0 <= b < s.len() && a != b ==> (#[trigger] s[a].pid@)
                != (#[trigger] s[b].pid@),
    ensures
        doc_map(s).contains_key(s[i].pid@),
        doc_map(s)[s[i].pid@] == s[i].ch,
    decreases s.len(),
{
    if i == s.len() - 1 {
    } else {
        assert forall|a: int, b: int|
            0 <= a < s.drop_last().len() && 0 <= b < s.drop_last().len() && a != b implies (
        #[trigger] s.drop_last()[a].pid@) != (#[trigger] s.drop_last()[b].pid@) by {
            assert(s[a].pid@ != s[b].pid@);
        }
        lemma_doc_map_index(s.drop_last(), i);
        assert(s.drop_last()[i] == s[i]);
        assert(s[i].pid@ != s.last().pid@);
    }
}

/// Inserting an entry with a fresh identifier anywhere in the row inserts
/// it into the map.
pub proof fn lemma_doc_map_insert_at(s: Seq<Atom>, i: int, a: Atom)
    requires
        0 <= i <= s.len(),
        forall|j: int| 0 <= j < s.len() ==> (#[trigger] s[j].pid@) != a.pid@,
    ensures
        doc_map(s.insert(i, a)) == doc_map(s).insert(a.pid@, a.ch),
    decreases s.len(),
{
    if i == s.len() {
        assert(s.insert(i, a).drop_last() =~= s);
        assert(s.insert(i, a).last() == a);
    } else {
        assert(s.insert(i, a).drop_last() =~= s.drop_last().insert(i, a));
        assert(s.insert(i, a).last() == s.last());
        assert forall|j: int| 0 <= j < s.drop_last().len() implies (
        #[trigger] s.drop_last()[j].pid@) != a.pid@ by {
            assert(s[j].pid@ != a.pid@);
        }
        lemma_doc_map_insert_at(s.drop_last(), i, a);
        assert(s[s.len() - 1].pid@ != a.pid@);
        assert(doc_map(s.insert(i, a)) =~= doc_map(s).insert(a.pid@, a.ch));
    }
}

/// Overwriting the entry that already carries a key updates the map at
/// that key.
pub proof fn lemma_doc_map_update_at(s: Seq<Atom>, i: int, a: Atom)
    requires
        0 <= i < s.len(),
        s[i].pid@ == a.pid@,
        forall|x: int, y: int|
            0 <= x < s.len() && 0 <= y < s.len() && x != y ==> (#[trigger] s[x].pid@)
                != (#[trigger] s[y].pid@),
    ensures
        doc_map(s.update(i, a)) == doc_map(s).insert(a.pid@, a.ch),
    decreases s.len(),
{
    if i == s.len() - 1 {
        assert(s.update(i, a).drop_last() =~= s.drop_last());
        assert(s.update(i, a).last() == a);
        assert(doc_map(s.update(i, a)) =~= doc_map(s).insert(a.pid@, a.ch));
    } else {
        assert(s.update(i, a).drop_last() =~= s.drop_last().update(i, a));
        assert(s.update(i, a).last() == s.last());
        assert forall|x: int, y: int|
            0 <= x < s.drop_last().len() && 0 <= y < s.drop_last().len() && x != y implies (
        #[trigger] s.drop_last()[x].pid@) != (#[trigger] s.drop_last()[y].pid@) by {
            assert(s[x].pid@ != s[y].pid@);
        }
        assert(s.drop_last()[i] == s[i]);
        lemma_doc_map_update_at(s.drop_last(), i, a);
        assert(s[i].pid@ != s[s.len() - 1].pid@);
        assert(doc_map(s.update(i, a)) =~= doc_map(s).insert(a.pid@, a.ch));
    }
}

/// Removing an entry removes its key from the map.
pub proof fn lemma_doc_map_remove_at(s: Seq<Atom>, i: int)
    requires
        0 <= i < s.len(),
        forall|x: int, y: int|
            0 <= x < s.len() && 0 <= y < s.len() && x != y ==> (#[trigger] s[x].pid@)
                != (#[trigger] s[y].pid@),
    ensures
        doc_map(s.remove(i)) == doc_map(s).remove(s[i].pid@),
    decreases s.len(),
{
    if i == s.len() - 1 {
        assert(s.remove(i) =~= s.drop_last());
        assert forall|j: int| 0 <= j < s.drop_last().len() implies (
        #[trigger] s.drop_last()[j].pid@) != s[i].pid@ by {
            assert(s[j].pid@ != s[i].pid@);
        }
        lemma_doc_map_contains(s.drop_last(), s[i].pid@);
        assert(!doc_map(s.drop_last()).contains_key(s[i].pid@));
        assert(doc_map(s.remove(i)) =~= doc_map(s).remove(s[i].pid@));
    } else {
        assert(s.remove(i).drop_last() =~= s.drop_last().remove(i));
        assert(s.remove(i).last() == s.last());
        assert forall|x: int, y: int|
            0 <= x < s.drop_last().len() && 0 <= y < s.drop_last().len() && x != y implies (
        #[trigger] s.drop_last()[x].pid@) != (#[trigger] s.drop_last()[y].pid@) by {
            assert(s[x].pid@ != s[y].pid@);
        }
        assert(s.drop_last()[i] == s[i]);
        lemma_doc_map_remove_at(s.drop_last(), i);
        assert(s[i].pid@ != s[s.len() - 1].pid@);
        assert(doc_map(s.remove(i)) =~= doc_map(s).remove(s[i].pid@));
    }
}

/// Index of the first entry of a sorted row whose identifier is not below
/// `pid`, and whether it carries `pid` itself.
fn locate_row(atoms: &Vec<Atom>, pid: &Pid) -> (r: (usize, bool))
    requires
        sorted_atoms(atoms@),
    ensures
        r.0 <= atoms@.len(),
        forall|j: int| 0 <= j < r.0 ==> pid_lt(#[trigger] atoms@[j].pid@, pid@),
        r.1 ==> r.0 < atoms@.len() && atoms@[r.0 as int].pid@ == pid@,
        !r.1 ==> r.0 == atoms@.len() || pid_lt(pid@, atoms@[r.0 as int].pid@),
        !r.1 ==> forall|j: int| 0 <= j < atoms@.len() ==> (#[trigger] atoms@[j].pid@) != pid@,
{
    let n = atoms.len();
    let mut j: usize = 0;
    while j < n
        invariant
            sorted_atoms(atoms@),
            n == atoms@.len(),
            0 <= j <= n,
            forall|k: int| 0 <= k < j ==> pid_lt(#[trigger] atoms@[k].pid@, pid@),
        decreases n - j,
    {
        let c = compare_pid(&atoms[j].pid, pid);
        if c == 0 {
            return (j, true);
        }
        if c == 1 {
            proof {
                assert forall|k: int| 0 <= k < atoms@.len() implies (
                #[trigger] atoms@[k].pid@) != pid@ by {
                    lemma_pid_lt_trichotomy(atoms@[k].pid@, pid@);
                    if k > j {
                        lemma_pid_lt_transitive(pid@, atoms@[j as int].pid@, atoms@[k].pid@);
                    }
                }
            }
            return (j, false);
        }
        j = j + 1;
    }
    proof {
        assert forall|k: int| 0 <= k < atoms@.len() implies (#[trigger] atoms@[k].pid@)
            != pid@ by {
            lemma_pid_lt_trichotomy(atoms@[k].pid@, pid@);
        }
    }
    (n, false)
}

impl Doc {
    /// Index of the first entry whose identifier is not below `pid`, and
    /// whether it carries `pid` itself.
    fn locate(&self, pid: &Pid) -> (r: (usize, bool))
        requires
            sorted_atoms(self.atoms@),
        ensures
            r.0 <= self.atoms@.len(),
            forall|j: int| 0 <= j < r.0 ==> pid_lt(#[trigger] self.atoms@[j].pid@, pid@),
            r.1 ==> r.0 < self.atoms@.len() && self.atoms@[r.0 as int].pid@ == pid@,
            !r.1 ==> r.0 == self.atoms@.len() || pid_lt(pid@, self.atoms@[r.0 as int].pid@),
            !r.1 ==> forall|j: int|
                0 <= j < self.atoms@.len() ==> (#[trigger] self.atoms@[j].pid@) != pid@,
    {
        locate_row(&self.atoms, pid)
    }

    /// Insert or overwrite the entry at an externally supplied identifier,
    /// as when replaying a remote operation.
    pub fn insert(&mut self, pid: Pid, c: char)
        requires
            old(self).wf(),
            1 <= pid@.len() <= 255,
            pid_le(begin_pid(), pid@),
            pid_le(pid@, end_pid()),
        ensures
            final(self).wf(),
            final(self).site == old(self).site,
            final(self).content_map() == old(self).content_map().insert(pid@, c),
    {
        let ghost olds = old(self).atoms@;
        let (idx, found) = self.locate(&pid);
        proof {
            lemma_sorted_distinct(olds);
        }
        if found {
            let _ = self.atoms.remove(idx);
            self.atoms.insert(idx, Atom { pid, ch: c });
            proof {
                assert(self.atoms@ =~= olds.update(idx as int, Atom { pid, ch: c })) by {
                    assert forall|j: int| 0 <= j < olds.len() implies #[trigger] self.atoms@[j]
                        == olds.update(idx as int, Atom { pid, ch: c })[j] by {
                        if j < idx {
                            assert(self.atoms@[j] == olds.remove(idx as int)[j]);
                            assert(olds.remove(idx as int)[j] == olds[j]);
                        } else if j > idx {
                            assert(self.atoms@[j] == olds.remove(idx as int)[j - 1]);
                            assert(olds.remove(idx as int)[j - 1] == olds[j]);
                        }
                    }
                    assert(self.atoms@.len() == olds.len());
                }
                lemma_doc_map_update_at(olds, idx as int, Atom { pid, ch: c });
                assert(sorted_atoms(self.atoms@)) by {
                    assert forall|x: int, y: int|
                        0 <= x < y < self.atoms@.len() implies pid_lt(
                        #[trigger] self.atoms@[x].pid@,
                        #[trigger] self.atoms@[y].pid@,
                    ) by {
                        assert(self.atoms@[x].pid@ == olds[x].pid@);
                        assert(self.atoms@[y].pid@ == olds[y].pid@);
                    }
                }
                assert(self.atoms@[0].pid@ == olds[0].pid@);
                assert(self.atoms@.last().pid@ == olds.last().pid@);
            }
        } else {
            proof {
                // the new identifier cannot fall outside the sentinels
                lemma_pid_lt_trichotomy(begin_pid(), pid@);
                lemma_pid_lt_trichotomy(pid@, end_pid());
                if idx == 0 {
                    assert(pid_lt(pid@, olds[0].pid@));
                    assert(false);
                }
                if idx == olds.len() {
                    assert(pid_lt(olds.last().pid@, pid@));
                    assert(false);
                }
            }
            self.atoms.insert(idx, Atom { pid, ch: c });
            proof {
                lemma_doc_map_insert_at(olds, idx as int, Atom { pid, ch: c });
                assert(sorted_atoms(self.atoms@)) by {
                    assert forall|x: int, y: int|
                        0 <= x < y < self.atoms@.len() implies pid_lt(
                        #[trigger] self.atoms@[x].pid@,
                        #[trigger] self.atoms@[y].pid@,
                    ) by {
                        let na = self.atoms@;
                        if x < idx {
                            assert(na[x] == olds[x]);
                        } else if x > idx {
                            assert(na[x] == olds[x - 1]);
                        }
                        if y < idx {
                            assert(na[y] == olds[y]);
                        } else if y > idx {
                            assert(na[y] == olds[y - 1]);
                        }
                        if y == idx && x < idx {
                            assert(pid_lt(olds[x].pid@, pid@));
                        }
                        if x == idx && y > idx {
                            assert(pid_lt(pid@, olds[idx as int].pid@));
                            if y - 1 > idx {
                                lemma_pid_lt_transitive(
                                    pid@,
                                    olds[idx as int].pid@,
                                    olds[y - 1].pid@,
                                );
                            }
                        }
                        if x < idx && y > idx {
                            assert(pid_lt(olds[x].pid@, olds[y - 1].pid@) || x == y - 1);
                        }
                    }
                }
                assert(self.atoms@[0] == olds[0]);
                assert(self.atoms@.last() == olds.last());
            }
        }
    }

    /// Remove the entry at `pid` if present; removing an absent identifier
    /// or a sentinel changes nothing.
    pub fn delete(&mut self, pid: &Pid)
        requires
            old(self).wf(),
        ensures
            final(self).wf(),
            final(self).site == old(self).site,
            final(self).content_map() == if pid@ == begin_pid() || pid@ == end_pid() {
                old(self).content_map()
            } else {
                old(self).content_map().remove(pid@)
            },
    {
        let ghost olds = old(self).atoms@;
        let cb = compare_pid(pid, &self.atoms[0].pid);
        let cl = compare_pid(pid, &self.atoms[self.atoms.len() - 1].pid);
        if cb == 0 || cl == 0 {
            // the sentinels are never deleted
            return ;
        }
        let (idx, found) = self.locate(pid);
        proof {
            lemma_sorted_distinct(olds);
            lemma_doc_map_contains(olds, pid@);
        }
        if found {
            proof {
                assert(idx != 0);
                assert(idx != olds.len() - 1);
                lemma_doc_map_remove_at(olds, idx as int);
            }
            let _ = self.atoms.remove(idx);
            proof {
                assert(sorted_atoms(self.atoms@)) by {
                    assert forall|x: int, y: int|
                        0 <= x < y < self.atoms@.len() implies pid_lt(
                        #[trigger] self.atoms@[x].pid@,
                        #[trigger] self.atoms@[y].pid@,
                    ) by {
                        let na = self.atoms@;
                        if x < idx {
                            assert(na[x] == olds[x]);
                        } else {
                            assert(na[x] == olds[x + 1]);
                        }
                        if y < idx {
                            assert(na[y] == olds[y]);
                        } else {
                            assert(na[y] == olds[y + 1]);
                        }
                    }
                }
                assert(self.atoms@[0] == olds[0]);
                assert(self.atoms@.last() == olds.last());
            }
        } else {
            proof {
                assert(!old(self).content_map().contains_key(pid@));
                assert(old(self).content_map().remove(pid@) =~= old(self).content_map());
            }
        }
    }

    /// Number of entries, the two sentinels included.
    pub fn len(&self) -> (r: usize)
        ensures
            r == self.atoms@.len(),
    {
        self.atoms.len()
    }
}


/// Identifier slot spacing used when a document is built from text.
pub open spec fn doc_step(n: int) -> int {
    0xFFFF_FFFF as int / n
}

/// Index of the entry carrying a key.
pub open spec fn index_of_key(s: Seq<Atom>, k: Seq<Pos>) -> int {
    choose|i: int| 0 <= i < s.len() && (#[trigger] s[i].pid@) == k
}

/// Identifier of the entry immediately after the one carrying `k`.
pub open spec fn succ_key(s: Seq<Atom>, k: Seq<Pos>) -> Seq<Pos> {
    s[index_of_key(s, k) + 1].pid@
}

/// Identifier of the entry immediately before the one carrying `k`.
pub open spec fn pred_key(s: Seq<Atom>, k: Seq<Pos>) -> Seq<Pos> {
    s[index_of_key(s, k) - 1].pid@
}

/// Rendering splits over concatenation.
pub proof fn lemma_visible_concat(s1: Seq<Atom>, s2: Seq<Atom>)
    ensures
        visible(s1 + s2) == visible(s1) + visible(s2),
    decreases s2.len(),
{
    if s2.len() == 0 {
        assert(s1 + s2 =~= s1);
        assert(visible(s1) + visible(s2) =~= visible(s1));
    } else {
        assert((s1 + s2).drop_last() =~= s1 + s2.drop_last());
        assert((s1 + s2).last() == s2.last());
        lemma_visible_concat(s1, s2.drop_last());
        assert(visible(s1 + s2) =~= visible(s1) + visible(s2));
    }
}

/// A row of entries that all sit strictly between the sentinels renders to
/// exactly its characters.
pub proof fn lemma_visible_all_between(s: Seq<Atom>)
    requires
        forall|j: int|
            0 <= j < s.len() ==> pid_lt(begin_pid(), #[trigger] s[j].pid@) && pid_lt(
                s[j].pid@,
                end_pid(),
            ),
    ensures
        visible(s).len() == s.len(),
        forall|j: int| 0 <= j < s.len() ==> visible(s)[j] == (#[trigger] s[j]).ch,
    decreases s.len(),
{
    if s.len() > 0 {
        assert(s[s.len() - 1].pid@ == s.last().pid@);
        assert forall|j: int| 0 <= j < s.drop_last().len() implies pid_lt(
            begin_pid(),
            #[trigger] s.drop_last()[j].pid@,
        ) && pid_lt(s.drop_last()[j].pid@, end_pid()) by {
            assert(s.drop_last()[j] == s[j]);
        }
        lemma_visible_all_between(s.drop_last());
        assert forall|j: int| 0 <= j < s.len() implies visible(s)[j] == (#[trigger] s[j]).ch by {
            if j < s.len() - 1 {
                assert(visible(s.drop_last())[j] == s.drop_last()[j].ch);
                assert(s.drop_last()[j] == s[j]);
            }
        }
    }
}

/// Under the document invariant, the visible text is the characters of the
/// entries between the two sentinels, in order.
pub proof fn lemma_visible_wf(s: Seq<Atom>)
    requires
        s.len() >= 2,
        s[0].pid@ == begin_pid(),
        s.last().pid@ == end_pid(),
        sorted_atoms(s),
    ensures
        visible(s).len() == s.len() - 2,
        forall|j: int| 0 <= j < s.len() - 2 ==> visible(s)[j] == s[j + 1].ch,
{
    let first = s.subrange(0, 1);
    let mid = s.subrange(1, s.len() - 1);
    let last = s.subrange(s.len() - 1, s.len() as int);
    assert(s =~= first + (mid + last));
    lemma_visible_concat(first, mid + last);
    lemma_visible_concat(mid, last);
    assert forall|j: int| 0 <= j < mid.len() implies pid_lt(
        begin_pid(),
        #[trigger] mid[j].pid@,
    ) && pid_lt(mid[j].pid@, end_pid()) by {
        assert(mid[j] == s[j + 1]);
        assert(pid_lt(s[0].pid@, s[j + 1].pid@));
        assert(pid_lt(s[j + 1].pid@, s[s.len() - 1].pid@));
    }
    lemma_visible_all_between(mid);
    assert(visible(Seq::<Atom>::empty()) =~= Seq::<char>::empty());
    assert(first.drop_last() =~= Seq::<Atom>::empty());
    assert(first.last() == s[0]);
    lemma_pid_lt_trichotomy(begin_pid(), begin_pid());
    assert(visible(first) =~= Seq::<char>::empty());
    assert(last.drop_last() =~= Seq::<Atom>::empty());
    assert(last.last() == s[s.len() - 1]);
    lemma_pid_lt_trichotomy(end_pid(), end_pid());
    assert(visible(last) =~= Seq::<char>::empty());
    assert(visible(s) =~= visible(mid));
    assert forall|j: int| 0 <= j < s.len() - 2 implies visible(s)[j] == s[j + 1].ch by {
        assert(visible(mid)[j] == mid[j].ch);
        assert(mid[j] == s[j + 1]);
    }
}

/// Two insertions at distinct identifiers land in the same document in
/// either order: concurrent inserts commute.
pub proof fn lemma_insert_insert_commute(
    m: Map<Seq<Pos>, char>,
    k1: Seq<Pos>,
    v1: char,
    k2: Seq<Pos>,
    v2: char,
)
    requires
        k1 != k2,
    ensures
        m.insert(k1, v1).insert(k2, v2) == m.insert(k2, v2).insert(k1, v1),
{
    assert(m.insert(k1, v1).insert(k2, v2) =~= m.insert(k2, v2).insert(k1, v1));
}

/// An insertion and a deletion at distinct identifiers commute.
pub proof fn lemma_insert_delete_commute(
    m: Map<Seq<Pos>, char>,
    k1: Seq<Pos>,
    v1: char,
    k2: Seq<Pos>,
)
    requires
        k1 != k2,
    ensures
        m.insert(k1, v1).remove(k2) == m.remove(k2).insert(k1, v1),
{
    assert(m.insert(k1, v1).remove(k2) =~= m.remove(k2).insert(k1, v1));
}

/// Deletions always commute, even at the same identifier.
pub proof fn lemma_delete_delete_commute(m: Map<Seq<Pos>, char>, k1: Seq<Pos>, k2: Seq<Pos>)
    ensures
        m.remove(k1).remove(k2) == m.remove(k2).remove(k1),
{
    assert(m.remove(k1).remove(k2) =~= m.remove(k2).remove(k1));
}

/// Deleting the same identifier twice has the same effect as deleting it
/// once.
pub proof fn lemma_delete_idempotent(m: Map<Seq<Pos>, char>, k: Seq<Pos>)
    ensures
        m.remove(k).remove(k) == m.remove(k),
{
    assert(m.remove(k).remove(k) =~= m.remove(k));
}

/// Inserting the same entry twice has the same effect as inserting it
/// once.
pub proof fn lemma_insert_idempotent(m: Map<Seq<Pos>, char>, k: Seq<Pos>, v: char)
    ensures
        m.insert(k, v).insert(k, v) == m.insert(k, v),
{
    assert(m.insert(k, v).insert(k, v) =~= m.insert(k, v));
}

impl Doc {
    /// A fresh copy of an identifier.
    fn duplicate_pid(p: &Pid) -> (r: Pid)
        ensures
            r@ == p@,
    {
        let n = p.0.len();
        let mut v: Vec<Pos> = Vec::new();
        let mut j: usize = 0;
        while j < n
            invariant
                n == p@.len(),
                0 <= j <= n,
                v@.len() == j,
                forall|k: int| 0 <= k < j ==> v@[k] == p@[k],
            decreases n - j,
        {
            v.push(p.0[j]);
            j = j + 1;
        }
        proof {
            assert(v@ =~= p@);
        }
        Pid(v)
    }

    /// Build a document from text: the sentinels, then one entry per
    /// character, spaced evenly across the identifier space and tagged
    /// with site 1.
    pub fn new(content: &str) -> (r: Doc)
        requires
            content@.len() <= 0xFFFF_FFFF,
        ensures
            r.wf(),
            r.site == 1,
            r.atoms@.len() == content@.len() + 2,
            r.atoms@[0].ch == '_',
            r.atoms@.last().ch == '_',
            forall|i: int|
                0 <= i < content@.len() ==> (#[trigger] r.atoms@[i + 1]).ch == content@[i]
                    && r.atoms@[i + 1].pid@ == seq![
                    Pos { ident: (i * doc_step(content@.len() as int)) as u32, site: 1u8 },
                ],
            visible(r.atoms@) == content@,
    {
        let n = content.unicode_len();
        let mut atoms: Vec<Atom> = Vec::new();
        let mut begin = Pid(Vec::new());
        begin.0.push(Pos { ident: 0, site: 0 });
        atoms.push(Atom { pid: begin, ch: '_' });
        proof {
            assert(atoms@[0].pid@ =~= begin_pid());
        }
        if n > 0 {
            let step: usize = (u32::MAX as usize) / n;
            proof {
                vstd::arithmetic::div_mod::lemma_fundamental_div_mod(0xFFFF_FFFF as int, n as int);
                assert(step == doc_step(n as int));
                assert(step >= 1) by {
                    vstd::arithmetic::div_mod::lemma_div_non_zero(
                        0xFFFF_FFFF as int,
                        n as int,
                    );
                }
                assert((n - 1) * step < 0xFFFF_FFFF) by (nonlinear_arith)
                    requires
                        0xFFFF_FFFF as int == (n as int) * step + (0xFFFF_FFFF as int) % (
                        n as int),
                        (0xFFFF_FFFF as int) % (n as int) >= 0,
                        step >= 1,
                        n >= 1,
                ;
            }
            let mut k: usize = 0;
            while k < n
                invariant
                    n == content@.len(),
                    1 <= n <= 0xFFFF_FFFF,
                    step == doc_step(n as int),
                    step >= 1,
                    (n - 1) * step < 0xFFFF_FFFF,
                    0 <= k <= n,
                    atoms@.len() == k + 1,
                    atoms@[0].pid@ == begin_pid(),
                    atoms@[0].ch == '_',
                    forall|i: int|
                        1 <= i <= k ==> (#[trigger] atoms@[i]).ch == content@[i - 1]
                            && atoms@[i].pid@ == seq![
                            Pos { ident: ((i - 1) * step as int) as u32, site: 1u8 },
                        ],
                decreases n - k,
            {
                proof {
                    assert(k * step <= (n - 1) * step) by (nonlinear_arith)
                        requires
                            0 <= k <= n - 1,
                            step >= 1,
                    ;
                }
                let ident = k * step;
                let c = content.get_char(k);
                let mut p = Pid(Vec::new());
                p.0.push(Pos { ident: ident as u32, site: 1 });
                let ghost pg = p;
                atoms.push(Atom { pid: p, ch: c });
                proof {
                    assert(pg@ =~= seq![Pos { ident: (k * step as int) as u32, site: 1u8 }]);
                    assert(atoms@[k + 1].pid@ == pg@);
                }
                k = k + 1;
            }
        }
        let ghost mids = atoms@;
        let mut end = Pid(Vec::new());
        end.0.push(Pos { ident: u32::MAX, site: 0 });
        atoms.push(Atom { pid: end, ch: '_' });
        let ghost fin = atoms@;
        proof {
            assert(fin.last().pid@ =~= end_pid());
            assert forall|m: int| 0 <= m < fin.len() - 1 implies #[trigger] fin[m] == mids[m] by {
                assert(mids.push(fin.last())[m] == mids[m]);
            }
            let n_ = content@.len() as int;
            let step_ = doc_step(n_);
            if n_ > 0 {
                vstd::arithmetic::div_mod::lemma_fundamental_div_mod(0xFFFF_FFFF as int, n_);
                assert(step_ >= 1) by {
                    if step_ == 0 {
                        assert(0xFFFF_FFFF as int == (0xFFFF_FFFF as int) % n_);
                        assert((0xFFFF_FFFF as int) % n_ < n_);
                    }
                }
                assert((n_ - 1) * step_ < 0xFFFF_FFFF) by (nonlinear_arith)
                    requires
                        0xFFFF_FFFF as int == n_ * step_ + (0xFFFF_FFFF as int) % n_,
                        (0xFFFF_FFFF as int) % n_ >= 0,
                        step_ >= 1,
                        n_ >= 1,
                ;
            }
            // the rows of identifiers are strictly sorted
            assert forall|i: int, j: int|
                0 <= i < j < fin.len() implies pid_lt(
                #[trigger] fin[i].pid@,
                #[trigger] fin[j].pid@,
            ) by {
                if 0 < i && i < j && j < fin.len() - 1 {
                    let a = i - 1;
                    let b = j - 1;
                    assert(a * step_ + step_ <= b * step_) by (nonlinear_arith)
                        requires
                            a < b,
                            step_ >= 1,
                            0 <= a,
                    ;
                    assert(b * step_ <= (n_ - 1) * step_) by (nonlinear_arith)
                        requires
                            b <= n_ - 1,
                            step_ >= 1,
                            0 <= b,
                    ;
                    assert(0 <= a * step_) by (nonlinear_arith)
                        requires
                            0 <= a,
                            0 <= step_,
                    ;
                }
                if i == 0 {
                    if j < fin.len() - 1 {
                        assert(fin[j] == mids[j]);
                        assert(mids[j].pid@ == seq![
                            Pos { ident: ((j - 1) * step_) as u32, site: 1u8 },
                        ]);
                        assert(crate::pos::pos_lt(fin[i].pid@[0], fin[j].pid@[0]));
                    } else {
                        assert(crate::pos::pos_lt(fin[i].pid@[0], fin[j].pid@[0]));
                    }
                } else if j == fin.len() - 1 {
                    assert(fin[i] == mids[i]);
                    assert(mids[i].pid@ == seq![
                        Pos { ident: ((i - 1) * step_) as u32, site: 1u8 },
                    ]);
                    assert((((i - 1) * step_) as u32) < (0xFFFF_FFFFu32)) by {
                        assert((i - 1) * step_ <= (n_ - 1) * step_) by (nonlinear_arith)
                            requires
                                i - 1 <= n_ - 1,
                                step_ >= 1,
                                0 <= i - 1,
                        ;
                        assert(0 <= (i - 1) * step_) by (nonlinear_arith)
                            requires
                                0 <= i - 1,
                                0 <= step_,
                        ;
                    }
                    assert(crate::pos::pos_lt(fin[i].pid@[0], fin[j].pid@[0]));
                } else {
                    assert(fin[i] == mids[i]);
                    assert(fin[j] == mids[j]);
                    assert(mids[i].pid@ == seq![
                        Pos { ident: ((i - 1) * step_) as u32, site: 1u8 },
                    ]);
                    assert(mids[j].pid@ == seq![
                        Pos { ident: ((j - 1) * step_) as u32, site: 1u8 },
                    ]);
                    assert(crate::pos::pos_lt(fin[i].pid@[0], fin[j].pid@[0]));
                }
            }
            assert(sorted_atoms(fin));
            assert forall|i: int| 0 <= i < fin.len() implies 1 <= (#[trigger] fin[i].pid@).len()
                <= 255 by {
                if i == 0 {
                } else if i == fin.len() - 1 {
                } else {
                    assert(fin[i] == mids[i]);
                    assert(mids[i].pid@ == seq![
                        Pos { ident: ((i - 1) * step_) as u32, site: 1u8 },
                    ]);
                }
            }
            assert(depths_ok(fin));
            assert forall|i: int|
                0 <= i < content@.len() implies (#[trigger] fin[i + 1]).ch == content@[i]
                    && fin[i + 1].pid@ == seq![
                    Pos { ident: (i * step_) as u32, site: 1u8 },
                ] by {
                assert(fin[i + 1] == mids[i + 1]);
                assert(mids[i + 1].pid@ == seq![Pos { ident: (i * step_) as u32, site: 1u8 }]);
            }
            lemma_visible_wf(fin);
            assert(visible(fin) =~= content@);
        }
        Doc { atoms, site: 1 }
    }

    /// Set the site tag used for local allocations.
    pub fn set_site(&mut self, site: u8)
        ensures
            final(self).atoms == old(self).atoms,
            final(self).site == site,
    {
        self.site = site;
    }

    /// Identifier of the entry immediately after `pid` in document order;
    /// the end sentinel has no successor.
    pub fn right(&self, pid: &Pid) -> (r: Pid)
        requires
            self.wf(),
            self.content_map().contains_key(pid@),
            pid@ != end_pid(),
        ensures
            r@ == succ_key(self.atoms@, pid@),
            self.content_map().contains_key(r@),
            pid_lt(pid@, r@),
    {
        let (idx, found) = self.locate(pid);
        proof {
            lemma_doc_map_contains(self.atoms@, pid@);
            assert(found);
            lemma_sorted_distinct(self.atoms@);
            assert(index_of_key(self.atoms@, pid@) == idx as int) by {
                let i = index_of_key(self.atoms@, pid@);
                assert(self.atoms@[idx as int].pid@ == pid@);
                assert(0 <= i < self.atoms@.len() && self.atoms@[i].pid@ == pid@);
            }
            assert(idx < self.atoms@.len() - 1) by {
                if idx == self.atoms@.len() - 1 {
                    assert(self.atoms@.last().pid@ == pid@);
                }
            }
            lemma_doc_map_index(self.atoms@, idx as int + 1);
        }
        let n = self.atoms.len();
        Self::duplicate_pid(&self.atoms[idx + 1].pid)
    }

    /// Identifier of the entry immediately before `pid` in document order;
    /// the begin sentinel has no predecessor.
    pub fn left(&self, pid: &Pid) -> (r: Pid)
        requires
            self.wf(),
            self.content_map().contains_key(pid@),
            pid@ != begin_pid(),
        ensures
            r@ == pred_key(self.atoms@, pid@),
            self.content_map().contains_key(r@),
            pid_lt(r@, pid@),
    {
        let (idx, found) = self.locate(pid);
        proof {
            lemma_doc_map_contains(self.atoms@, pid@);
            assert(found);
            lemma_sorted_distinct(self.atoms@);
            assert(index_of_key(self.atoms@, pid@) == idx as int) by {
                let i = index_of_key(self.atoms@, pid@);
                assert(self.atoms@[idx as int].pid@ == pid@);
                assert(0 <= i < self.atoms@.len() && self.atoms@[i].pid@ == pid@);
            }
            assert(idx > 0) by {
                if idx == 0 {
                    assert(self.atoms@[0].pid@ == pid@);
                }
            }
            lemma_doc_map_index(self.atoms@, idx as int - 1);
        }
        Self::duplicate_pid(&self.atoms[idx - 1].pid)
    }

    /// Identifier `off` entries to the right (positive) or left (negative)
    /// of `pid`, or nothing when that runs off either end.
    pub fn offset(&self, pid: &Pid, off: isize) -> (r: Option<Pid>)
        requires
            self.wf(),
            self.content_map().contains_key(pid@),
        ensures
            ({
                let i = index_of_key(self.atoms@, pid@);
                if 0 <= i + off < self.atoms@.len() {
                    r is Some && r->0@ == self.atoms@[i + off].pid@
                } else {
                    r is None
                }
            }),
    {
        let (idx, found) = self.locate(pid);
        proof {
            lemma_doc_map_contains(self.atoms@, pid@);
            assert(found);
            lemma_sorted_distinct(self.atoms@);
            assert(index_of_key(self.atoms@, pid@) == idx as int) by {
                let i = index_of_key(self.atoms@, pid@);
                assert(self.atoms@[idx as int].pid@ == pid@);
                assert(0 <= i < self.atoms@.len() && self.atoms@[i].pid@ == pid@);
            }
        }
        if off >= 0 {
            let o = off as usize;
            if o <= self.atoms.len() - 1 - idx {
                Some(Self::duplicate_pid(&self.atoms[idx + o].pid))
            } else {
                None
            }
        } else {
            let o: usize = if off == isize::MIN {
                (isize::MAX as usize) + 1
            } else {
                (-off) as usize
            };
            proof {
                assert(o == -(off as int));
            }
            if o <= idx {
                Some(Self::duplicate_pid(&self.atoms[idx - o].pid))
            } else {
                None
            }
        }
    }

    /// Allocate a fresh identifier between `pid` and its left neighbour,
    /// insert `c` there, and return the new identifier. The insert is owed
    /// whenever the depth ceiling leaves headroom and some identifier fits
    /// at all ([`crate::pid::lemma_zero_extension_is_next`] names the one
    /// neighbour pair none fits between); a failed insert changes nothing.
    pub fn insert_left(&mut self, pid: Pid, c: char) -> (r: Option<Pid>)
        requires
            old(self).wf(),
            old(self).content_map().contains_key(pid@),
            pid@ != begin_pid(),
        ensures
            final(self).wf(),
            final(self).site == old(self).site,
            ({
                let pred = pred_key(old(self).atoms@, pid@);
                &&& r is Some ==> {
                    &&& 1 <= r->0@.len() <= 255
                    &&& pid_lt(pred, r->0@) && pid_lt(r->0@, pid@)
                    &&& !old(self).content_map().contains_key(r->0@)
                    &&& final(self).content_map() == old(self).content_map().insert(r->0@, c)
                }
                &&& r is None ==> *final(self) == *old(self)
                &&& (max_depth_of(pred, pid@) + 1 <= 255 && pid@ != pred.push(zero_pos()))
                    ==> r is Some
            }),
    {
        let ln = self.left(&pid);
        let fresh = generate_between_pids(&ln, &pid, self.site);
        let ghost s = self.atoms@;
        let ghost i = index_of_key(s, pid@);
        proof {
            // the bounds are adjacent entries, so anything strictly
            // between them is between the sentinels and fresh
            lemma_doc_map_contains(s, pid@);
            lemma_sorted_distinct(s);
            assert(0 <= i < s.len() && s[i].pid@ == pid@);
            if i < s.len() - 1 {
                assert(pid_lt(s[i].pid@, s[s.len() - 1].pid@));
            }
            assert(pid_le(pid@, end_pid()));
            assert(1 <= pid@.len() <= 255);
            assert(i >= 1);
            if i - 1 > 0 {
                assert(pid_lt(s[0].pid@, s[i - 1].pid@));
            }
            assert(pid_le(begin_pid(), ln@));
            assert(pid_lt(ln@, pid@));
        }
        if fresh.depth() >= 1 && fresh.depth() <= 255 {
            let cl = compare_pid(&ln, &fresh);
            let cr = compare_pid(&fresh, &pid);
            if cl == -1 && cr == -1 {
                proof {
                    // strictly between adjacent entries: inside the
                    // sentinels, and no existing entry carries it
                    if ln@ == begin_pid() {
                    } else {
                        lemma_begin_min(ln@);
                        lemma_pid_lt_transitive(begin_pid(), ln@, fresh@);
                    }
                    if pid@ == end_pid() {
                    } else {
                        lemma_pid_lt_transitive(fresh@, pid@, end_pid());
                    }
                    assert(pid_le(begin_pid(), fresh@));
                    assert(pid_le(fresh@, end_pid()));
                    assert forall|j: int| 0 <= j < s.len() implies (#[trigger] s[j].pid@)
                        != fresh@ by {
                        if j <= i - 1 {
                            if j < i - 1 {
                                assert(pid_lt(s[j].pid@, s[i - 1].pid@));
                                lemma_pid_lt_transitive(s[j].pid@, s[i - 1].pid@, fresh@);
                            }
                            lemma_pid_lt_trichotomy(s[j].pid@, fresh@);
                        } else {
                            if j > i {
                                assert(pid_lt(s[i].pid@, s[j].pid@));
                                lemma_pid_lt_transitive(fresh@, s[i].pid@, s[j].pid@);
                            }
                            lemma_pid_lt_trichotomy(fresh@, s[j].pid@);
                        }
                    }
                    lemma_doc_map_contains(s, fresh@);
                }
                let nd = Self::duplicate_pid(&fresh);
                self.insert(fresh, c);
                return Some(nd);
            }
        }
        proof {
            // the checks can only fail without depth headroom or against
            // the one roomless neighbour pair
            if max_depth_of(ln@, pid@) + 1 <= 255 && pid@ != ln@.push(zero_pos()) {
                assert(pid_lt(ln@, fresh@) && pid_lt(fresh@, pid@));
                assert(1 <= fresh@.len() <= 255);
                assert(false);
            }
        }
        None
    }

    /// Every identifier in the document, in document order.
    pub fn keys(&self) -> (r: Vec<Pid>)
        ensures
            r@.len() == self.atoms@.len(),
            forall|i: int| 0 <= i < r@.len() ==> (#[trigger] r@[i])@ == self.atoms@[i].pid@,
    {
        let n = self.atoms.len();
        let mut r: Vec<Pid> = Vec::new();
        let mut j: usize = 0;
        while j < n
            invariant
                n == self.atoms@.len(),
                0 <= j <= n,
                r@.len() == j,
                forall|i: int| 0 <= i < j ==> (#[trigger] r@[i])@ == self.atoms@[i].pid@,
            decreases n - j,
        {
            r.push(Self::duplicate_pid(&self.atoms[j].pid));
            j = j + 1;
        }
        r
    }

    /// Every character in the document, sentinels included, in document
    /// order.
    pub fn values(&self) -> (r: Vec<char>)
        ensures
            r@.len() == self.atoms@.len(),
            forall|i: int| 0 <= i < r@.len() ==> r@[i] == (#[trigger] self.atoms@[i]).ch,
    {
        let n = self.atoms.len();
        let mut r: Vec<char> = Vec::new();
        let mut j: usize = 0;
        while j < n
            invariant
                n == self.atoms@.len(),
                0 <= j <= n,
                r@.len() == j,
                forall|i: int| 0 <= i < j ==> r@[i] == (#[trigger] self.atoms@[i]).ch,
            decreases n - j,
        {
            r.push(self.atoms[j].ch);
            j = j + 1;
        }
        r
    }

    /// The visible text: every character strictly between the sentinels,
    /// in document order.
    pub fn to_string(&self) -> (r: String)
        requires
            self.wf(),
        ensures
            r@ == visible(self.atoms@),
    {
        proof {
            lemma_visible_wf(self.atoms@);
        }
        let n = self.atoms.len();
        let mut r = String::new();
        let mut j: usize = 1;
        while j < n - 1
            invariant
                self.wf(),
                n == self.atoms@.len(),
                n >= 2,
                1 <= j <= n - 1,
                r@.len() == j - 1,
                forall|i: int| 0 <= i < j - 1 ==> r@[i] == self.atoms@[i + 1].ch,
            decreases n - j,
        {
            crate::wire::push_char(&mut r, self.atoms[j].ch);
            j = j + 1;
        }
        proof {
            lemma_visible_wf(self.atoms@);
            assert(r@ =~= visible(self.atoms@));
        }
        r
    }
}



/// Wire form of one entry: the length-prefixed character, the identifier
/// depth, then the identifier's positions.
pub open spec fn atom_bytes(p: Seq<Pos>, c: char) -> Seq<u8> {
    char_field_bytes(c) + (seq![p.len() as u8] + pid_body_bytes(p))
}

/// Wire form of a row of entries, in order.
pub open spec fn doc_bytes(s: Seq<Atom>) -> Seq<u8>
    decreases s.len(),
{
    if s.len() == 0 {
        Seq::empty()
    } else {
        atom_bytes(s[0].pid@, s[0].ch) + doc_bytes(s.drop_first())
    }
}

/// Concatenating rows concatenates their wire bytes.
pub proof fn lemma_doc_bytes_concat(s1: Seq<Atom>, s2: Seq<Atom>)
    ensures
        doc_bytes(s1 + s2) == doc_bytes(s1) + doc_bytes(s2),
    decreases s1.len(),
{
    if s1.len() == 0 {
        assert(s1 + s2 =~= s2);
        assert(doc_bytes(s1) + doc_bytes(s2) =~= doc_bytes(s2));
    } else {
        assert((s1 + s2).drop_first() =~= s1.drop_first() + s2);
        lemma_doc_bytes_concat(s1.drop_first(), s2);
        assert(doc_bytes(s1 + s2) =~= doc_bytes(s1) + doc_bytes(s2));
    }
}

/// Decode one entry from the start of `bs`.
pub open spec fn dec_atom(bs: Seq<u8>) -> Option<((Seq<Pos>, char), int)> {
    match dec_char_field(bs) {
        Option::None => Option::None,
        Option::Some((c, used)) => {
            if bs.len() < used + 1 {
                Option::None
            } else {
                let d = bs[used];
                if d == 0 {
                    Option::None
                } else {
                    match dec_positions(bs.skip(used + 1), d as nat) {
                        Option::None => Option::None,
                        Option::Some(ps) => Option::Some(((ps, c), used + 1 + 5 * (d as int))),
                    }
                }
            }
        },
    }
}

/// Decode `n` entries from the start of `bs`.
pub open spec fn dec_atoms(bs: Seq<u8>, n: nat) -> Option<(Seq<(Seq<Pos>, char)>, int)>
    decreases n,
{
    if n == 0 {
        Option::Some((Seq::empty(), 0))
    } else {
        match dec_atom(bs) {
            Option::None => Option::None,
            Option::Some((rec, used)) => {
                if used < 0 || used > bs.len() {
                    Option::None
                } else {
                    match dec_atoms(bs.skip(used), (n - 1) as nat) {
                        Option::None => Option::None,
                        Option::Some((rest, used2)) => Option::Some(
                            (seq![rec] + rest, used + used2),
                        ),
                    }
                }
            },
        }
    }
}

/// Decode entries until the bytes run out; any trailing partial record
/// fails the whole decode.
pub open spec fn dec_atoms_eof(bs: Seq<u8>) -> Option<Seq<(Seq<Pos>, char)>>
    decreases bs.len(),
{
    if bs.len() == 0 {
        Option::Some(Seq::empty())
    } else {
        match dec_atom(bs) {
            Option::None => Option::None,
            Option::Some((rec, used)) => {
                if used < 1 || used > bs.len() {
                    Option::None
                } else {
                    match dec_atoms_eof(bs.skip(used)) {
                        Option::None => Option::None,
                        Option::Some(rest) => Option::Some(seq![rec] + rest),
                    }
                }
            },
        }
    }
}

/// The records of a row of entries.
pub open spec fn records_of(s: Seq<Atom>) -> Seq<(Seq<Pos>, char)>
    decreases s.len(),
{
    if s.len() == 0 {
        Seq::empty()
    } else {
        seq![(s[0].pid@, s[0].ch)] + records_of(s.drop_first())
    }
}

/// Folding a run of records into a map, first record first.
pub open spec fn map_from(acc: Map<Seq<Pos>, char>, rs: Seq<(Seq<Pos>, char)>) -> Map<
    Seq<Pos>,
    char,
>
    decreases rs.len(),
{
    if rs.len() == 0 {
        acc
    } else {
        map_from(acc.insert(rs[0].0, rs[0].1), rs.drop_first())
    }
}

/// The map a run of records decodes to: later records win.
pub open spec fn map_of_records(rs: Seq<(Seq<Pos>, char)>) -> Map<Seq<Pos>, char> {
    map_from(Map::empty(), rs)
}

/// A decoded map carries both sentinels and nothing beyond the end
/// sentinel.
pub open spec fn sentinels_ok(m: Map<Seq<Pos>, char>) -> bool {
    &&& m.contains_key(begin_pid())
    &&& m.contains_key(end_pid())
    &&& forall|k: Seq<Pos>| #[trigger] m.contains_key(k) ==> pid_le(k, end_pid())
}

/// Appending one record to a run folds as one more insertion.
pub proof fn lemma_map_from_push(acc: Map<Seq<Pos>, char>, rs: Seq<(Seq<Pos>, char)>, r: (
    Seq<Pos>,
    char,
))
    ensures
        map_from(acc, rs.push(r)) == map_from(acc, rs).insert(r.0, r.1),
    decreases rs.len(),
{
    if rs.len() == 0 {
        assert(rs.push(r).drop_first() =~= Seq::<(Seq<Pos>, char)>::empty());
        assert(rs.push(r)[0] == r);
        assert(map_from(acc.insert(r.0, r.1), Seq::<(Seq<Pos>, char)>::empty()) == acc.insert(
            r.0,
            r.1,
        ));
        assert(map_from(acc, rs.push(r)) =~= map_from(acc, rs).insert(r.0, r.1));
    } else {
        assert(rs.push(r).drop_first() =~= rs.drop_first().push(r));
        assert(rs.push(r)[0] == rs[0]);
        lemma_map_from_push(acc.insert(rs[0].0, rs[0].1), rs.drop_first(), r);
        assert(map_from(acc, rs.push(r)) =~= map_from(acc, rs).insert(r.0, r.1));
    }
}

/// Decoding the wire form of one entry, followed by anything, yields the
/// entry back.
pub proof fn lemma_dec_atom_round_trip(p: Seq<Pos>, c: char, rest: Seq<u8>)
    requires
        1 <= p.len() <= 255,
    ensures
        dec_atom(atom_bytes(p, c) + rest) == Option::Some::<((Seq<Pos>, char), int)>(
            ((p, c), atom_bytes(p, c).len() as int),
        ),
        atom_bytes(p, c).len() >= 3,
{
    let bs = atom_bytes(p, c) + rest;
    let cf = char_field_bytes(c);
    let d = p.len() as u8;
    let body = pid_body_bytes(p);
    lemma_pid_body_bytes_len(p);
    assert(bs =~= cf + (seq![d] + (body + rest)));
    crate::wire::lemma_char_field_round_trip(c, seq![d] + (body + rest));
    let used = crate::wire::char_bytes(c).len() + 1 as int;
    assert(dec_char_field(bs) == Option::Some::<(char, int)>((c, used as int)));
    assert(bs.len() >= used + 1);
    assert(bs[used as int] == d) by {
        assert(bs[used as int] == (seq![d] + (body + rest))[0]);
    }
    assert(d != 0);
    assert(bs.skip(used as int + 1) =~= body + rest) by {
        assert forall|m: int| 0 <= m < bs.len() - used - 1 implies #[trigger] bs.skip(
            used as int + 1,
        )[m] == (body + rest)[m] by {
            assert(bs.skip(used as int + 1)[m] == bs[used + 1 + m]);
            assert(bs[used + 1 + m] == (seq![d] + (body + rest))[1 + m]);
        }
        assert(bs.skip(used as int + 1).len() == bs.len() - used - 1);
    }
    lemma_dec_positions_round_trip(p, rest);
    assert(dec_positions(bs.skip(used as int + 1), d as nat) == Option::Some(p));
}

/// Decoding the wire form of a row of entries, followed by anything,
/// yields the records back.
pub proof fn lemma_dec_atoms_round_trip(s: Seq<Atom>, rest: Seq<u8>)
    requires
        depths_ok(s),
    ensures
        dec_atoms(doc_bytes(s) + rest, s.len() as nat) == Option::Some::<(
            Seq<(Seq<Pos>, char)>,
            int,
        )>((records_of(s), doc_bytes(s).len() as int)),
    decreases s.len(),
{
    if s.len() == 0 {
        assert(doc_bytes(s) + rest =~= rest);
        assert(records_of(s) =~= Seq::<(Seq<Pos>, char)>::empty());
    } else {
        let a = s[0];
        let ab = atom_bytes(a.pid@, a.ch);
        let bs = doc_bytes(s) + rest;
        assert(bs =~= ab + (doc_bytes(s.drop_first()) + rest));
        lemma_dec_atom_round_trip(a.pid@, a.ch, doc_bytes(s.drop_first()) + rest);
        assert(bs.skip(ab.len() as int) =~= doc_bytes(s.drop_first()) + rest) by {
            assert forall|m: int| 0 <= m < bs.len() - ab.len() implies #[trigger] bs.skip(
                ab.len() as int,
            )[m] == (doc_bytes(s.drop_first()) + rest)[m] by {
                assert(bs.skip(ab.len() as int)[m] == bs[ab.len() + m]);
            }
            assert(bs.skip(ab.len() as int).len() == bs.len() - ab.len());
        }
        assert forall|j: int| 0 <= j < s.drop_first().len() implies 1 <= (
        #[trigger] s.drop_first()[j].pid@).len() <= 255 by {
            assert(s.drop_first()[j] == s[j + 1]);
        }
        lemma_dec_atoms_round_trip(s.drop_first(), rest);
        assert(records_of(s) =~= seq![(a.pid@, a.ch)] + records_of(s.drop_first()));
        let w = dec_atoms(bs, s.len() as nat)->0;
        assert(seq![(a.pid@, a.ch)] + records_of(s.drop_first()) == w.0);
    }
}

/// Insert or overwrite one entry in a bare sorted row.
fn insert_atom(v: &mut Vec<Atom>, atoms_pid: Pid, c: char)
    requires
        sorted_atoms(old(v)@),
        depths_ok(old(v)@),
        1 <= atoms_pid@.len() <= 255,
    ensures
        sorted_atoms(final(v)@),
        depths_ok(final(v)@),
        doc_map(final(v)@) == doc_map(old(v)@).insert(atoms_pid@, c),
        final(v)@.len() >= 1,
        final(v)@.len() <= old(v)@.len() + 1,
        forall|k: Seq<Pos>| #[trigger] doc_map(final(v)@).contains_key(k) ==> doc_map(
            old(v)@,
        ).contains_key(k) || k == atoms_pid@,
{
    let ghost olds = old(v)@;
    let (idx, found) = locate_row(v, &atoms_pid);
    proof {
        lemma_sorted_distinct(olds);
    }
    if found {
        let _ = v.remove(idx);
        v.insert(idx, Atom { pid: atoms_pid, ch: c });
        proof {
            assert(v@ =~= olds.update(idx as int, Atom { pid: atoms_pid, ch: c })) by {
                assert forall|j: int| 0 <= j < olds.len() implies #[trigger] v@[j] == olds.update(
                    idx as int,
                    Atom { pid: atoms_pid, ch: c },
                )[j] by {
                    if j < idx {
                        assert(v@[j] == olds.remove(idx as int)[j]);
                        assert(olds.remove(idx as int)[j] == olds[j]);
                    } else if j > idx {
                        assert(v@[j] == olds.remove(idx as int)[j - 1]);
                        assert(olds.remove(idx as int)[j - 1] == olds[j]);
                    }
                }
                assert(v@.len() == olds.len());
            }
            lemma_doc_map_update_at(olds, idx as int, Atom { pid: atoms_pid, ch: c });
            assert forall|x: int, y: int|
                0 <= x < y < v@.len() implies pid_lt(
                #[trigger] v@[x].pid@,
                #[trigger] v@[y].pid@,
            ) by {
                assert(v@[x].pid@ == olds[x].pid@);
                assert(v@[y].pid@ == olds[y].pid@);
            }
            assert forall|k: Seq<Pos>| #[trigger] doc_map(v@).contains_key(k) implies doc_map(
                olds,
            ).contains_key(k) || k == atoms_pid@ by {
                lemma_doc_map_contains(olds, k);
            }
        }
    } else {
        v.insert(idx, Atom { pid: atoms_pid, ch: c });
        proof {
            lemma_doc_map_insert_at(olds, idx as int, Atom { pid: atoms_pid, ch: c });
            assert forall|x: int, y: int|
                0 <= x < y < v@.len() implies pid_lt(
                #[trigger] v@[x].pid@,
                #[trigger] v@[y].pid@,
            ) by {
                let na = v@;
                if x < idx {
                    assert(na[x] == olds[x]);
                } else if x > idx {
                    assert(na[x] == olds[x - 1]);
                }
                if y < idx {
                    assert(na[y] == olds[y]);
                } else if y > idx {
                    assert(na[y] == olds[y - 1]);
                }
                if y == idx && x < idx {
                    assert(pid_lt(olds[x].pid@, atoms_pid@));
                }
                if x == idx && y > idx {
                    assert(pid_lt(atoms_pid@, olds[idx as int].pid@));
                    if y - 1 > idx {
                        lemma_pid_lt_transitive(
                            atoms_pid@,
                            olds[idx as int].pid@,
                            olds[y - 1].pid@,
                        );
                    }
                }
                if x < idx && y > idx {
                    assert(pid_lt(olds[x].pid@, olds[y - 1].pid@) || x == y - 1);
                }
            }
            assert forall|k: Seq<Pos>| #[trigger] doc_map(v@).contains_key(k) implies doc_map(
                olds,
            ).contains_key(k) || k == atoms_pid@ by {
                lemma_doc_map_contains(olds, k);
            }
        }
    }
}



/// Decode one length-prefixed entry from `buf` at `*i`.
pub fn read_atom_at(buf: &Vec<u8>, i: &mut usize) -> (r: Result<(Pid, char), WireError>)
    requires
        *old(i) <= buf@.len(),
    ensures
        match r {
            Ok(pc) => {
                &&& dec_atom(buf@.skip(*old(i) as int)) matches Some(w) && w.0 == (pc.0@, pc.1)
                    && *final(i) == *old(i) + w.1
                &&& *final(i) <= buf@.len()
                &&& 1 <= pc.0@.len() <= 255
            },
            Err(_) => {
                &&& dec_atom(buf@.skip(*old(i) as int)) is None
                &&& *final(i) == *old(i)
            },
        },
{
    let ghost i0 = *i as int;
    let ghost bs = buf@.skip(i0);
    let mut j: usize = *i;
    let c = match read_char_field(buf, &mut j) {
        Ok(c) => c,
        Err(e) => {
            return Err(e);
        },
    };
    let ghost used = j - i0;
    proof {
        assert(dec_char_field(bs) matches Some(w) && w.0 == c && w.1 == used);
    }
    let d = match read_u8(buf, &mut j) {
        Ok(d) => d,
        Err(e) => {
            proof {
                assert(bs.len() < used + 1) by {
                    assert(bs.len() == buf@.len() - i0);
                }
            }
            return Err(e);
        },
    };
    proof {
        assert(bs[used as int] == buf@[i0 + used]) by {
            assert(bs.len() == buf@.len() - i0);
        }
        assert(bs[used as int] == d);
    }
    if d == 0 {
        return Err(WireError::BadRecord);
    }
    let p = match Pid::from_reader(buf, &mut j, d as usize) {
        Ok(p) => p,
        Err(e) => {
            proof {
                assert(bs.skip(used + 1) =~= buf@.skip(i0 + used + 1)) by {
                    assert forall|m: int| 0 <= m < bs.len() - used - 1 implies #[trigger] bs.skip(
                        used + 1,
                    )[m] == buf@.skip(i0 + used + 1)[m] by {
                        assert(bs.skip(used + 1)[m] == bs[used + 1 + m]);
                        assert(bs[used + 1 + m] == buf@[i0 + used + 1 + m]);
                        assert(buf@.skip(i0 + used + 1)[m] == buf@[i0 + used + 1 + m]);
                    }
                    assert(bs.skip(used + 1).len() == bs.len() - used - 1);
                    assert(buf@.skip(i0 + used + 1).len() == buf@.len() - i0 - used - 1);
                }
                assert(dec_positions(buf@.skip(i0 + used + 1), d as nat) is None);
            }
            return Err(e);
        },
    };
    proof {
        assert(bs.skip(used + 1) =~= buf@.skip(i0 + used + 1)) by {
            assert forall|m: int| 0 <= m < bs.len() - used - 1 implies #[trigger] bs.skip(
                used + 1,
            )[m] == buf@.skip(i0 + used + 1)[m] by {
                assert(bs.skip(used + 1)[m] == bs[used + 1 + m]);
                assert(bs[used + 1 + m] == buf@[i0 + used + 1 + m]);
                assert(buf@.skip(i0 + used + 1)[m] == buf@[i0 + used + 1 + m]);
            }
            assert(bs.skip(used + 1).len() == bs.len() - used - 1);
            assert(buf@.skip(i0 + used + 1).len() == buf@.len() - i0 - used - 1);
        }
        assert(dec_positions(bs.skip(used + 1), d as nat) == Some(p@));
    }
    *i = j;
    Ok((p, c))
}

impl Doc {
    /// Append the wire form of every entry, in document order, to `buf`.
    pub fn write_bytes_tobuf(&self, buf: &mut Vec<u8>)
        requires
            depths_ok(self.atoms@),
        ensures
            final(buf)@ == old(buf)@ + doc_bytes(self.atoms@),
    {
        let n = self.atoms.len();
        let mut j: usize = 0;
        while j < n
            invariant
                depths_ok(self.atoms@),
                n == self.atoms@.len(),
                0 <= j <= n,
                buf@ == old(buf)@ + doc_bytes(self.atoms@.subrange(0, j as int)),
            decreases n - j,
        {
            let a = &self.atoms[j];
            write_char_field(buf, a.ch);
            proof {
                assert(1 <= a.pid@.len() <= 255);
            }
            buf.push(a.pid.0.len() as u8);
            a.pid.write_bytes_buf(buf);
            proof {
                let s = self.atoms@;
                let one = s.subrange(j as int, j + 1);
                assert(s.subrange(0, j + 1) =~= s.subrange(0, j as int) + one);
                lemma_doc_bytes_concat(s.subrange(0, j as int), one);
                assert(one[0] == s[j as int]);
                assert(one.drop_first() =~= Seq::<Atom>::empty());
                assert(doc_bytes(Seq::<Atom>::empty()) =~= Seq::<u8>::empty());
                assert(doc_bytes(one) =~= atom_bytes(s[j as int].pid@, s[j as int].ch));
                assert(buf@ =~= old(buf)@ + doc_bytes(s.subrange(0, j + 1)));
            }
            j = j + 1;
        }
        proof {
            assert(self.atoms@.subrange(0, n as int) =~= self.atoms@);
        }
    }

    /// As [`Doc::write_bytes_tobuf`]; appending to a byte vector cannot
    /// fail.
    pub fn write_bytes(&self, buf: &mut Vec<u8>) -> (r: Result<(), WireError>)
        requires
            depths_ok(self.atoms@),
        ensures
            r is Ok,
            final(buf)@ == old(buf)@ + doc_bytes(self.atoms@),
    {
        self.write_bytes_tobuf(buf);
        Ok(())
    }

    /// Decode a document from `n` entry records at `*i`; fails on any
    /// malformed record or when the records do not form a sentinel-bounded
    /// document.
    pub fn from_reader(buf: &Vec<u8>, i: &mut usize, n: usize) -> (r: Result<Doc, WireError>)
        requires
            *old(i) <= buf@.len(),
        ensures
            match r {
                Ok(d) => {
                    &&& dec_atoms(buf@.skip(*old(i) as int), n as nat) matches Some(w) && d.wf()
                        && d.content_map() == map_of_records(w.0) && *final(i) == *old(i) + w.1
                        && sentinels_ok(map_of_records(w.0))
                    &&& d.site == 1
                    &&& *final(i) <= buf@.len()
                },
                Err(_) => {
                    &&& *final(i) == *old(i)
                    &&& (dec_atoms(buf@.skip(*old(i) as int), n as nat) matches Some(w)
                        ==> !sentinels_ok(map_of_records(w.0)))
                },
            },
    {
        let ghost i0 = *i as int;
        let mut j: usize = *i;
        let mut v: Vec<Atom> = Vec::new();
        let ghost whole = dec_atoms(buf@.skip(i0), n as nat);
        let mut k: usize = 0;
        while k < n
            invariant
                i0 == *old(i) as int,
                i0 <= j <= buf@.len(),
                whole == dec_atoms(buf@.skip(i0), n as nat),
                0 <= k <= n,
                sorted_atoms(v@),
                depths_ok(v@),
                whole is Some <==> dec_atoms(buf@.skip(j as int), (n - k) as nat) is Some,
                whole is Some ==> {
                    let ww = whole->0;
                    let inner = dec_atoms(buf@.skip(j as int), (n - k) as nat)->0;
                    &&& ww.1 == (j - i0) + inner.1
                    &&& map_from(doc_map(v@), inner.0) == map_of_records(ww.0)
                },
            decreases n - k,
        {
            let ghost jpre = j as int;
            let ghost pre = buf@.skip(jpre);
            let (p, c) = match read_atom_at(buf, &mut j) {
                Ok(pc) => pc,
                Err(e) => {
                    proof {
                        assert(dec_atoms(pre, (n - k) as nat) is None);
                    }
                    return Err(e);
                },
            };
            proof {
                let w = dec_atom(pre)->0;
                assert(w.1 == j - jpre);
                assert(0 <= w.1 <= pre.len()) by {
                    assert(pre.len() == buf@.len() - jpre);
                }
                assert(pre.skip(w.1) =~= buf@.skip(j as int)) by {
                    assert forall|m: int| 0 <= m < pre.len() - w.1 implies #[trigger] pre.skip(
                        w.1,
                    )[m] == buf@.skip(j as int)[m] by {
                        assert(pre.skip(w.1)[m] == pre[w.1 + m]);
                        assert(pre[w.1 + m] == buf@[jpre + w.1 + m]);
                        assert(buf@.skip(j as int)[m] == buf@[j + m]);
                    }
                    assert(pre.skip(w.1).len() == pre.len() - w.1);
                    assert(buf@.skip(j as int).len() == buf@.len() - j);
                }
                // one unfolding of the record decoder
                assert(dec_atoms(pre, (n - k) as nat) is Some <==> dec_atoms(
                    buf@.skip(j as int),
                    (n - k - 1) as nat,
                ) is Some);
                if whole is Some {
                    let rest = dec_atoms(buf@.skip(j as int), (n - k - 1) as nat)->0;
                    let cur = dec_atoms(pre, (n - k) as nat)->0;
                    assert(cur.0 =~= seq![w.0] + rest.0);
                }
            }
            let ghost vpre = v@;
            insert_atom(&mut v, p, c);
            k = k + 1;
            proof {
                if whole is Some {
                    let inner_pre = dec_atoms(pre, (n - k + 1) as nat)->0;
                    let inner = dec_atoms(buf@.skip(j as int), (n - k) as nat)->0;
                    assert(inner_pre.0 == seq![inner_pre.0[0]] + inner.0);
                    assert(map_from(doc_map(vpre), inner_pre.0) == map_from(
                        doc_map(v@),
                        inner.0,
                    )) by {
                        assert((seq![inner_pre.0[0]] + inner.0).drop_first() =~= inner.0);
                        assert((seq![inner_pre.0[0]] + inner.0)[0] == inner_pre.0[0]);
                    }
                }
            }
        }
        proof {
            assert(dec_atoms(buf@.skip(j as int), 0) == Some((
                Seq::<(Seq<Pos>, char)>::empty(),
                0int,
            )));
            if whole is Some {
                let ww = whole->0;
                assert(map_from(doc_map(v@), Seq::<(Seq<Pos>, char)>::empty()) == doc_map(v@));
                assert(doc_map(v@) == map_of_records(ww.0));
            }
        }
        // the decoded entries must form a sentinel-bounded document
        if v.len() < 2 {
            proof {
                lemma_doc_map_contains(v@, begin_pid());
                lemma_doc_map_contains(v@, end_pid());
                lemma_sorted_distinct(v@);
                if doc_map(v@).contains_key(begin_pid()) && doc_map(v@).contains_key(
                    end_pid(),
                ) {
                    let a = choose|a: int| 0 <= a < v@.len() && (#[trigger] v@[a].pid@)
                        == begin_pid();
                    let b = choose|b: int| 0 <= b < v@.len() && (#[trigger] v@[b].pid@)
                        == end_pid();
                    assert(begin_pid() != end_pid()) by {
                        assert(begin_pid()[0].ident == 0 && end_pid()[0].ident == LBASE);
                    }
                    assert(a != b);
                    assert(v@.len() >= 2);
                }
            }
            return Err(WireError::BadRecord);
        }
        let mut bp = Pid(Vec::new());
        bp.0.push(Pos { ident: 0, site: 0 });
        let mut ep = Pid(Vec::new());
        ep.0.push(Pos { ident: u32::MAX, site: 0 });
        proof {
            assert(bp@ =~= begin_pid());
            assert(ep@ =~= end_pid());
            lemma_sorted_distinct(v@);
            lemma_doc_map_contains(v@, begin_pid());
            lemma_doc_map_contains(v@, end_pid());
        }
        let cb = compare_pid(&v[0].pid, &bp);
        let ce = compare_pid(&v[v.len() - 1].pid, &ep);
        if cb == 0 && ce == 0 {
            let d = Doc { atoms: v, site: 1 };
            proof {
                assert(d.wf());
                // the sentinels are in the decoded map, and nothing beyond
                // the end sentinel
                lemma_doc_map_index(d.atoms@, 0);
                lemma_doc_map_index(d.atoms@, d.atoms@.len() - 1);
                assert forall|key: Seq<Pos>| #[trigger] doc_map(d.atoms@).contains_key(
                    key,
                ) implies pid_le(key, end_pid()) by {
                    lemma_doc_map_contains(d.atoms@, key);
                    let m = choose|m: int| 0 <= m < d.atoms@.len() && (#[trigger] d.atoms@[m].pid@)
                        == key;
                    if m < d.atoms@.len() - 1 {
                        assert(pid_lt(d.atoms@[m].pid@, d.atoms@[d.atoms@.len() - 1].pid@));
                    }
                }
            }
            *i = j;
            return Ok(d);
        }
        proof {
            // a failed sentinel check means the decoded map is not a
            // sentinel-bounded document
            if sentinels_ok(doc_map(v@)) {
                let a = choose|a: int| 0 <= a < v@.len() && (#[trigger] v@[a].pid@)
                    == begin_pid();
                let b = choose|b: int| 0 <= b < v@.len() && (#[trigger] v@[b].pid@)
                    == end_pid();
                if a > 0 {
                    lemma_begin_min(v@[0].pid@);
                    assert(pid_lt(v@[0].pid@, v@[a].pid@));
                    lemma_pid_lt_trichotomy(begin_pid(), v@[0].pid@);
                    assert(false);
                }
                assert(v@[0].pid@ == begin_pid());
                if b < v@.len() - 1 {
                    assert(pid_lt(v@[b].pid@, v@[v@.len() - 1].pid@));
                    lemma_doc_map_index(v@, v@.len() - 1);
                    assert(doc_map(v@).contains_key(v@[v@.len() - 1].pid@));
                    assert(pid_le(v@[v@.len() - 1].pid@, end_pid()));
                    lemma_pid_lt_trichotomy(end_pid(), v@[v@.len() - 1].pid@);
                    assert(false);
                }
                assert(v@.last().pid@ == end_pid());
                assert(false);
            }
        }
        Err(WireError::BadRecord)
    }
}



impl Doc {
    /// Decode a document from entry records running to the end of the
    /// buffer; fails on any malformed or truncated record, or when the
    /// records do not form a sentinel-bounded document.
    pub fn from_reader_eof(buf: &Vec<u8>, i: &mut usize) -> (r: Result<Doc, WireError>)
        requires
            *old(i) <= buf@.len(),
        ensures
            match r {
                Ok(d) => {
                    &&& dec_atoms_eof(buf@.skip(*old(i) as int)) matches Some(rs) && d.wf()
                        && d.content_map() == map_of_records(rs) && sentinels_ok(
                        map_of_records(rs),
                    )
                    &&& d.site == 1
                    &&& *final(i) == buf@.len()
                },
                Err(_) => {
                    &&& *final(i) == *old(i)
                    &&& (dec_atoms_eof(buf@.skip(*old(i) as int)) matches Some(rs)
                        ==> !sentinels_ok(map_of_records(rs)))
                },
            },
    {
        let ghost i0 = *i as int;
        let mut j: usize = *i;
        let mut v: Vec<Atom> = Vec::new();
        let ghost whole = dec_atoms_eof(buf@.skip(i0));
        let n = buf.len();
        while j < n
            invariant
                i0 == *old(i) as int,
                i0 <= j <= buf@.len(),
                n == buf@.len(),
                whole == dec_atoms_eof(buf@.skip(i0)),
                sorted_atoms(v@),
                depths_ok(v@),
                whole is Some <==> dec_atoms_eof(buf@.skip(j as int)) is Some,
                whole is Some ==> map_from(doc_map(v@), dec_atoms_eof(buf@.skip(j as int))->0)
                    == map_of_records(whole->0),
            decreases n - j,
        {
            let ghost jpre = j as int;
            let ghost pre = buf@.skip(jpre);
            proof {
                assert(pre.len() == buf@.len() - jpre);
                assert(pre.len() > 0);
            }
            let (p, c) = match read_atom_at(buf, &mut j) {
                Ok(pc) => pc,
                Err(e) => {
                    proof {
                        assert(dec_atoms_eof(pre) is None);
                    }
                    return Err(e);
                },
            };
            proof {
                let w = dec_atom(pre)->0;
                assert(w.1 == j - jpre);
                assert(1 <= w.1 <= pre.len()) by {
                    assert(j <= buf@.len());
                    assert(j > jpre) by {
                        if j == jpre {
                            assert(dec_char_field(pre) matches Some(cf) && cf.1 >= 2);
                        }
                    }
                }
                assert(pre.skip(w.1) =~= buf@.skip(j as int)) by {
                    assert forall|m: int| 0 <= m < pre.len() - w.1 implies #[trigger] pre.skip(
                        w.1,
                    )[m] == buf@.skip(j as int)[m] by {
                        assert(pre.skip(w.1)[m] == pre[w.1 + m]);
                        assert(pre[w.1 + m] == buf@[jpre + w.1 + m]);
                        assert(buf@.skip(j as int)[m] == buf@[j + m]);
                    }
                    assert(pre.skip(w.1).len() == pre.len() - w.1);
                    assert(buf@.skip(j as int).len() == buf@.len() - j);
                }
                assert(dec_atoms_eof(pre) is Some <==> dec_atoms_eof(
                    buf@.skip(j as int),
                ) is Some);
            }
            let ghost vpre = v@;
            insert_atom(&mut v, p, c);
            proof {
                if whole is Some {
                    let w = dec_atom(pre)->0;
                    let rest = dec_atoms_eof(buf@.skip(j as int))->0;
                    let cur = dec_atoms_eof(pre)->0;
                    assert(cur =~= seq![w.0] + rest);
                    assert(map_from(doc_map(vpre), cur) == map_from(doc_map(v@), rest)) by {
                        assert((seq![w.0] + rest).drop_first() =~= rest);
                        assert((seq![w.0] + rest)[0] == w.0);
                    }
                }
            }
        }
        proof {
            assert(buf@.skip(j as int).len() == 0);
            assert(dec_atoms_eof(buf@.skip(j as int)) == Some(Seq::<(Seq<Pos>, char)>::empty()));
            if whole is Some {
                assert(map_from(doc_map(v@), Seq::<(Seq<Pos>, char)>::empty()) == doc_map(v@));
                assert(doc_map(v@) == map_of_records(whole->0));
            }
        }
        if v.len() < 2 {
            proof {
                lemma_doc_map_contains(v@, begin_pid());
                lemma_doc_map_contains(v@, end_pid());
                lemma_sorted_distinct(v@);
                if doc_map(v@).contains_key(begin_pid()) && doc_map(v@).contains_key(
                    end_pid(),
                ) {
                    let a = choose|a: int| 0 <= a < v@.len() && (#[trigger] v@[a].pid@)
                        == begin_pid();
                    let b = choose|b: int| 0 <= b < v@.len() && (#[trigger] v@[b].pid@)
                        == end_pid();
                    assert(begin_pid() != end_pid()) by {
                        assert(begin_pid()[0].ident == 0 && end_pid()[0].ident == LBASE);
                    }
                    assert(a != b);
                    assert(v@.len() >= 2);
                }
            }
            return Err(WireError::BadRecord);
        }
        let mut bp = Pid(Vec::new());
        bp.0.push(Pos { ident: 0, site: 0 });
        let mut ep = Pid(Vec::new());
        ep.0.push(Pos { ident: u32::MAX, site: 0 });
        proof {
            assert(bp@ =~= begin_pid());
            assert(ep@ =~= end_pid());
            lemma_sorted_distinct(v@);
            lemma_doc_map_contains(v@, begin_pid());
            lemma_doc_map_contains(v@, end_pid());
        }
        let cb = compare_pid(&v[0].pid, &bp);
        let ce = compare_pid(&v[v.len() - 1].pid, &ep);
        if cb == 0 && ce == 0 {
            let d = Doc { atoms: v, site: 1 };
            proof {
                assert(d.wf());
                lemma_doc_map_index(d.atoms@, 0);
                lemma_doc_map_index(d.atoms@, d.atoms@.len() - 1);
                assert forall|key: Seq<Pos>| #[trigger] doc_map(d.atoms@).contains_key(
                    key,
                ) implies pid_le(key, end_pid()) by {
                    lemma_doc_map_contains(d.atoms@, key);
                    let m = choose|m: int| 0 <= m < d.atoms@.len() && (#[trigger] d.atoms@[m].pid@)
                        == key;
                    if m < d.atoms@.len() - 1 {
                        assert(pid_lt(d.atoms@[m].pid@, d.atoms@[d.atoms@.len() - 1].pid@));
                    }
                }
            }
            *i = j;
            return Ok(d);
        }
        proof {
            if sentinels_ok(doc_map(v@)) {
                let a = choose|a: int| 0 <= a < v@.len() && (#[trigger] v@[a].pid@)
                    == begin_pid();
                let b = choose|b: int| 0 <= b < v@.len() && (#[trigger] v@[b].pid@)
                    == end_pid();
                if a > 0 {
                    lemma_begin_min(v@[0].pid@);
                    assert(pid_lt(v@[0].pid@, v@[a].pid@));
                    lemma_pid_lt_trichotomy(begin_pid(), v@[0].pid@);
                    assert(false);
                }
                assert(v@[0].pid@ == begin_pid());
                if b < v@.len() - 1 {
                    assert(pid_lt(v@[b].pid@, v@[v@.len() - 1].pid@));
                    lemma_doc_map_index(v@, v@.len() - 1);
                    assert(doc_map(v@).contains_key(v@[v@.len() - 1].pid@));
                    assert(pid_le(v@[v@.len() - 1].pid@, end_pid()));
                    lemma_pid_lt_trichotomy(end_pid(), v@[v@.len() - 1].pid@);
                    assert(false);
                }
                assert(v@.last().pid@ == end_pid());
                assert(false);
            }
        }
        Err(WireError::BadRecord)
    }
}

/// Decoding what a sentinel-bounded document wrote yields its contents
/// back: the round trip behind snapshots and durable storage.
pub proof fn lemma_doc_round_trip(d: Doc)
    requires
        d.wf(),
    ensures
        dec_atoms(doc_bytes(d.atoms@), d.atoms@.len() as nat) matches Some(w) && map_of_records(
            w.0,
        ) == d.content_map() && sentinels_ok(map_of_records(w.0)),
        dec_atoms_eof(doc_bytes(d.atoms@)) matches Some(rs) && map_of_records(rs)
            == d.content_map(),
{
    lemma_dec_atoms_round_trip(d.atoms@, Seq::<u8>::empty());
    assert(doc_bytes(d.atoms@) + Seq::<u8>::empty() =~= doc_bytes(d.atoms@));
    lemma_records_map(d.atoms@);
    lemma_dec_atoms_eof_round_trip(d.atoms@);
    lemma_sorted_distinct(d.atoms@);
    lemma_doc_map_index(d.atoms@, 0);
    lemma_doc_map_index(d.atoms@, d.atoms@.len() - 1);
    assert forall|key: Seq<Pos>| #[trigger] doc_map(d.atoms@).contains_key(key) implies pid_le(
        key,
        end_pid(),
    ) by {
        lemma_doc_map_contains(d.atoms@, key);
        let m = choose|m: int| 0 <= m < d.atoms@.len() && (#[trigger] d.atoms@[m].pid@) == key;
        if m < d.atoms@.len() - 1 {
            assert(pid_lt(d.atoms@[m].pid@, d.atoms@[d.atoms@.len() - 1].pid@));
        }
    }
}

/// Decoding the wire form of a row of entries to the end of the buffer
/// yields the records back.
pub proof fn lemma_dec_atoms_eof_round_trip(s: Seq<Atom>)
    requires
        depths_ok(s),
    ensures
        dec_atoms_eof(doc_bytes(s)) == Option::Some(records_of(s)),
    decreases s.len(),
{
    if s.len() == 0 {
        assert(doc_bytes(s).len() == 0);
        assert(records_of(s) =~= Seq::<(Seq<Pos>, char)>::empty());
    } else {
        let a = s[0];
        let ab = atom_bytes(a.pid@, a.ch);
        let bs = doc_bytes(s);
        assert(bs =~= ab + doc_bytes(s.drop_first()));
        lemma_dec_atom_round_trip(a.pid@, a.ch, doc_bytes(s.drop_first()));
        assert(bs.len() > 0);
        assert(bs.skip(ab.len() as int) =~= doc_bytes(s.drop_first())) by {
            assert forall|m: int| 0 <= m < bs.len() - ab.len() implies #[trigger] bs.skip(
                ab.len() as int,
            )[m] == doc_bytes(s.drop_first())[m] by {
                assert(bs.skip(ab.len() as int)[m] == bs[ab.len() + m]);
            }
            assert(bs.skip(ab.len() as int).len() == bs.len() - ab.len());
        }
        assert forall|j: int| 0 <= j < s.drop_first().len() implies 1 <= (
        #[trigger] s.drop_first()[j].pid@).len() <= 255 by {
            assert(s.drop_first()[j] == s[j + 1]);
        }
        lemma_dec_atoms_eof_round_trip(s.drop_first());
        assert(records_of(s) =~= seq![(a.pid@, a.ch)] + records_of(s.drop_first()));
    }
}

/// Folding the records of a sorted distinct row yields the row's map.
pub proof fn lemma_records_map(s: Seq<Atom>)
    requires
        sorted_atoms(s),
    ensures
        map_of_records(records_of(s)) == doc_map(s),
    decreases s.len(),
{
    lemma_records_map_from(Map::empty(), s);
    lemma_doc_map_over_empty(s);
}

/// Folding the records of any row onto an accumulator applies the same
/// insertions as building the row's map over it.
proof fn lemma_records_map_from(acc: Map<Seq<Pos>, char>, s: Seq<Atom>)
    ensures
        map_from(acc, records_of(s)) == doc_map_over(acc, s),
    decreases s.len(),
{
    if s.len() == 0 {
        assert(records_of(s).len() == 0);
    } else {
        assert(records_of(s).drop_first() =~= records_of(s.drop_first()));
        assert(records_of(s)[0] == (s[0].pid@, s[0].ch));
        lemma_records_map_from(acc.insert(s[0].pid@, s[0].ch), s.drop_first());
    }
}

/// Building a row's map over an accumulator, first entry first.
pub open spec fn doc_map_over(acc: Map<Seq<Pos>, char>, s: Seq<Atom>) -> Map<Seq<Pos>, char>
    decreases s.len(),
{
    if s.len() == 0 {
        acc
    } else {
        doc_map_over(acc.insert(s[0].pid@, s[0].ch), s.drop_first())
    }
}

/// Over any accumulator, the front-first fold equals inserting the last
/// entry after folding the rest.
proof fn lemma_doc_map_over_last(acc: Map<Seq<Pos>, char>, s: Seq<Atom>)
    ensures
        s.len() > 0 ==> doc_map_over(acc, s) == doc_map_over(acc, s.drop_last()).insert(
            s.last().pid@,
            s.last().ch,
        ),
    decreases s.len(),
{
    if s.len() == 1 {
        assert(s.drop_first().len() == 0);
        assert(s.drop_last().len() == 0);
        assert(doc_map_over(acc.insert(s[0].pid@, s[0].ch), s.drop_first()) == acc.insert(
            s[0].pid@,
            s[0].ch,
        ));
        assert(doc_map_over(acc, s) == acc.insert(s[0].pid@, s[0].ch));
    } else if s.len() > 1 {
        assert(s.drop_first().drop_last() =~= s.drop_last().drop_first());
        assert(s.drop_first().last() == s.last());
        lemma_doc_map_over_last(acc.insert(s[0].pid@, s[0].ch), s.drop_first());
        assert(s.drop_last()[0] == s[0]);
    }
}

/// The front-first fold from an empty accumulator is the row's map.
pub proof fn lemma_doc_map_over_empty(s: Seq<Atom>)
    ensures
        doc_map_over(Map::empty(), s) == doc_map(s),
    decreases s.len(),
{
    if s.len() > 0 {
        lemma_doc_map_over_empty(s.drop_last());
        lemma_doc_map_over_last(Map::empty(), s);
    }
}



/// A run of `n` records spans at least `n` bytes; decoding more records
/// than there are bytes always fails.
pub proof fn lemma_dec_atoms_min(bs: Seq<u8>, n: nat)
    ensures
        dec_atoms(bs, n) is Some ==> n <= bs.len(),
    decreases n,
{
    if n > 0 && dec_atoms(bs, n) is Some {
        let w = dec_atom(bs)->0;
        assert(w.1 >= 1) by {
            let cf = dec_char_field(bs)->0;
            assert(cf.1 >= 2);
        }
        lemma_dec_atoms_min(bs.skip(w.1), (n - 1) as nat);
        assert(bs.skip(w.1).len() == bs.len() - w.1);
    }
}

} // verus!
