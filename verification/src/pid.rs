//! Identifiers: non-empty ordered paths of positions, their total order, and
//! the allocator that manufactures a fresh identifier between two existing
//! ones.

use crate::pos::{pos_bytes, pos_le, pos_lt, Pos};
use crate::wire::{read_u32, read_u8, WireError};
use crate::LBASE;
use vstd::bytes::{lemma_auto_spec_u32_to_from_le_bytes, spec_u32_from_le_bytes};
use vstd::prelude::*;

verus! {

/// An identifier is a non-empty path of positions. Ordering is lexicographic
/// over the path using position ordering; a strict prefix sorts first.
#[derive(Debug, Clone, Hash)]
pub struct Pid(pub Vec<Pos>);

impl View for Pid {
    type V = Seq<Pos>;

    open spec fn view(&self) -> Seq<Pos> {
        self.0@
    }
}

impl PartialEq for Pid {
    fn eq(&self, other: &Pid) -> (r: bool)
        ensures
            r == (self@ == other@),
    {
        if self.0.len() != other.0.len() {
            proof {
                assert(self@ != other@);
            }
            return false;
        }
        let n = self.0.len();
        let mut j: usize = 0;
        while j < n
            invariant
                n == self@.len() == other@.len(),
                0 <= j <= n,
                forall|k: int| 0 <= k < j ==> self@[k] == other@[k],
            decreases n - j,
        {
            if self.0[j] != other.0[j] {
                return false;
            }
            j = j + 1;
        }
        proof {
            assert(self@ =~= other@);
        }
        true
    }
}

impl vstd::std_specs::cmp::PartialEqSpecImpl for Pid {
    open spec fn obeys_eq_spec() -> bool {
        true
    }

    open spec fn eq_spec(&self, other: &Pid) -> bool {
        self@ == other@
    }
}

/// Strict lexicographic order on identifier paths: the first differing
/// position decides; if one path is a strict prefix of the other, the shorter
/// path sorts first.
pub open spec fn pid_lt(a: Seq<Pos>, b: Seq<Pos>) -> bool
    decreases a.len(),
{
    if b.len() == 0 {
        false
    } else if a.len() == 0 {
        true
    } else if a[0] == b[0] {
        pid_lt(a.drop_first(), b.drop_first())
    } else {
        pos_lt(a[0], b[0])
    }
}

/// Non-strict companion of [`pid_lt`].
pub open spec fn pid_le(a: Seq<Pos>, b: Seq<Pos>) -> bool {
    pid_lt(a, b) || a == b
}

/// The identifier order decides every pair one way: exactly one of
/// `a < b`, `a == b`, `b < a` holds. With [`lemma_pid_lt_transitive`] this
/// makes the order total, so any two replicas that hold the same set of
/// identifiers agree on their physical order regardless of arrival order.
pub proof fn lemma_pid_lt_trichotomy(a: Seq<Pos>, b: Seq<Pos>)
    ensures
        pid_lt(a, b) || pid_lt(b, a) || a == b,
        !(pid_lt(a, b) && pid_lt(b, a)),
        a == b ==> !pid_lt(a, b),
    decreases a.len(),
{
    if a.len() == 0 && b.len() == 0 {
        assert(a =~= b);
    } else if a.len() != 0 && b.len() != 0 {
        if a[0] == b[0] {
            lemma_pid_lt_trichotomy(a.drop_first(), b.drop_first());
            assert(a.drop_first().len() == a.len() - 1);
            assert(b.drop_first().len() == b.len() - 1);
            if a.drop_first() == b.drop_first() {
                assert forall|i: int| 0 <= i < a.len() implies a[i] == b[i] by {
                    if i > 0 {
                        assert(a.drop_first()[i - 1] == a[i]);
                        assert(b.drop_first()[i - 1] == b[i]);
                    }
                }
                assert(a =~= b);
            }
            if a == b {
                assert(a.drop_first() =~= b.drop_first());
            }
        } else {
            assert(a != b);
        }
    }
}

/// The identifier order is transitive.
pub proof fn lemma_pid_lt_transitive(a: Seq<Pos>, b: Seq<Pos>, c: Seq<Pos>)
    requires
        pid_lt(a, b),
        pid_lt(b, c),
    ensures
        pid_lt(a, c),
    decreases a.len() + b.len() + c.len(),
{
    if b.len() == 0 {
        // pid_lt(a, b) would be false
    } else if c.len() == 0 {
        // pid_lt(b, c) would be false
    } else if a.len() == 0 {
        // a is the minimum
    } else {
        if a[0] == b[0] && b[0] == c[0] {
            lemma_pid_lt_transitive(a.drop_first(), b.drop_first(), c.drop_first());
        }
    }
}

/// Restricting both paths to a shared prefix does not change their order:
/// comparison is decided from position `k` on.
pub proof fn lemma_pid_lt_skip(a: Seq<Pos>, b: Seq<Pos>, k: int)
    requires
        0 <= k <= a.len(),
        k <= b.len(),
        a.subrange(0, k) == b.subrange(0, k),
    ensures
        pid_lt(a, b) == pid_lt(a.skip(k), b.skip(k)),
    decreases k,
{
    if k == 0 {
        assert(a.skip(0) =~= a);
        assert(b.skip(0) =~= b);
    } else {
        assert(a.subrange(0, k)[0] == a[0]);
        assert(b.subrange(0, k)[0] == b[0]);
        assert(a[0] == b[0]);
        assert(a.drop_first().len() == a.len() - 1);
        assert(b.drop_first().len() == b.len() - 1);
        assert(a.drop_first().subrange(0, k - 1) =~= b.drop_first().subrange(0, k - 1)) by {
            assert forall|j: int| 0 <= j < k - 1 implies #[trigger] a.drop_first().subrange(
                0,
                k - 1,
            )[j] == b.drop_first().subrange(0, k - 1)[j] by {
                assert(a.drop_first().subrange(0, k - 1)[j] == a.drop_first()[j]);
                assert(a.drop_first()[j] == a[j + 1]);
                assert(a.subrange(0, k)[j + 1] == a[j + 1]);
                assert(b.drop_first().subrange(0, k - 1)[j] == b.drop_first()[j]);
                assert(b.drop_first()[j] == b[j + 1]);
                assert(b.subrange(0, k)[j + 1] == b[j + 1]);
            }
            assert(a.drop_first().subrange(0, k - 1).len() == k - 1);
            assert(b.drop_first().subrange(0, k - 1).len() == k - 1);
        }
        lemma_pid_lt_skip(a.drop_first(), b.drop_first(), k - 1);
        assert(a.drop_first().skip(k - 1) =~= a.skip(k)) by {
            assert forall|j: int| 0 <= j < a.len() - k implies #[trigger] a.drop_first().skip(
                k - 1,
            )[j] == a.skip(k)[j] by {
                assert(a.drop_first().skip(k - 1)[j] == a.drop_first()[j + k - 1]);
                assert(a.drop_first()[j + k - 1] == a[j + k]);
                assert(a.skip(k)[j] == a[j + k]);
            }
            assert(a.drop_first().skip(k - 1).len() == a.len() - k);
            assert(a.skip(k).len() == a.len() - k);
        }
        assert(b.drop_first().skip(k - 1) =~= b.skip(k)) by {
            assert forall|j: int| 0 <= j < b.len() - k implies #[trigger] b.drop_first().skip(
                k - 1,
            )[j] == b.skip(k)[j] by {
                assert(b.drop_first().skip(k - 1)[j] == b.drop_first()[j + k - 1]);
                assert(b.drop_first()[j + k - 1] == b[j + k]);
                assert(b.skip(k)[j] == b[j + k]);
            }
            assert(b.drop_first().skip(k - 1).len() == b.len() - k);
            assert(b.skip(k).len() == b.len() - k);
        }
    }
}

/// Compare two identifiers, returning `-1` when the left sorts first, `0` on
/// equality, and `1` when the right sorts first.
pub fn compare_pid(lp: &Pid, rp: &Pid) -> (r: i8)
    ensures
        r == -1 || r == 0 || r == 1,
        (r == -1) <==> pid_lt(lp@, rp@),
        (r == 0) <==> lp@ == rp@,
        (r == 1) <==> pid_lt(rp@, lp@),
{
    proof {
        lemma_pid_lt_trichotomy(lp@, rp@);
        lemma_pid_lt_trichotomy(rp@, lp@);
    }
    let a = &lp.0;
    let b = &rp.0;
    let min: usize = if a.len() <= b.len() {
        a.len()
    } else {
        b.len()
    };
    let mut j: usize = 0;
    while j < min
        invariant
            min <= a@.len(),
            min <= b@.len(),
            a@ == lp@,
            b@ == rp@,
            0 <= j <= min,
            forall|k: int| 0 <= k < j ==> a@[k] == b@[k],
        decreases min - j,
    {
        let x = a[j];
        let y = b[j];
        proof {
            lemma_prefix_eq(a@, b@, j as int);
        }
        if x.ident < y.ident || (x.ident == y.ident && x.site < y.site) {
            proof {
                lemma_pid_lt_trichotomy(lp@, rp@);
                lemma_pid_lt_trichotomy(rp@, lp@);
                lemma_pid_lt_skip(a@, b@, j as int);
                assert(a@.skip(j as int)[0] == a@[j as int]);
                assert(b@.skip(j as int)[0] == b@[j as int]);
                assert(a@.skip(j as int).len() == a@.len() - j);
                assert(b@.skip(j as int).len() == b@.len() - j);
                assert(pid_lt(a@.skip(j as int), b@.skip(j as int)));
            }
            return -1;
        }
        if y.ident < x.ident || (x.ident == y.ident && y.site < x.site) {
            proof {
                lemma_pid_lt_trichotomy(lp@, rp@);
                lemma_pid_lt_trichotomy(rp@, lp@);
                lemma_pid_lt_skip(b@, a@, j as int);
                assert(a@.skip(j as int)[0] == a@[j as int]);
                assert(b@.skip(j as int)[0] == b@[j as int]);
                assert(a@.skip(j as int).len() == a@.len() - j);
                assert(b@.skip(j as int).len() == b@.len() - j);
                assert(pid_lt(b@.skip(j as int), a@.skip(j as int)));
            }
            return 1;
        }
        proof {
            assert(a@[j as int] == b@[j as int]);
        }
        j = j + 1;
    }
    proof {
        lemma_pid_lt_trichotomy(lp@, rp@);
        lemma_pid_lt_trichotomy(rp@, lp@);
        lemma_prefix_eq(a@, b@, min as int);
        lemma_pid_lt_skip(a@, b@, min as int);
        lemma_pid_lt_skip(b@, a@, min as int);
        assert(a@.skip(min as int).len() == a@.len() - min);
        assert(b@.skip(min as int).len() == b@.len() - min);
    }
    if a.len() < b.len() {
        proof {
            assert(pid_lt(a@.skip(min as int), b@.skip(min as int)));
        }
        -1
    } else if b.len() < a.len() {
        proof {
            assert(pid_lt(b@.skip(min as int), a@.skip(min as int)));
        }
        1
    } else {
        proof {
            assert(a@ =~= b@);
        }
        0
    }
}

/// Element-wise equal prefixes are equal subranges.
proof fn lemma_prefix_eq(a: Seq<Pos>, b: Seq<Pos>, k: int)
    requires
        0 <= k <= a.len(),
        k <= b.len(),
        forall|m: int| 0 <= m < k ==> a[m] == b[m],
    ensures
        a.subrange(0, k) == b.subrange(0, k),
{
    assert(a.subrange(0, k) =~= b.subrange(0, k)) by {
        assert forall|m: int| 0 <= m < k implies #[trigger] a.subrange(0, k)[m] == b.subrange(
            0,
            k,
        )[m] by {
            assert(a.subrange(0, k)[m] == a[m]);
            assert(b.subrange(0, k)[m] == b[m]);
        }
        assert(a.subrange(0, k).len() == k);
        assert(b.subrange(0, k).len() == k);
    }
}

/// Wire form of an identifier path without its depth prefix: the five bytes
/// of each position in order.
pub open spec fn pid_body_bytes(s: Seq<Pos>) -> Seq<u8>
    decreases s.len(),
{
    if s.len() == 0 {
        Seq::empty()
    } else {
        pos_bytes(s[0]) + pid_body_bytes(s.drop_first())
    }
}

/// Concatenating paths concatenates their wire bytes.
pub proof fn lemma_pid_body_bytes_concat(s1: Seq<Pos>, s2: Seq<Pos>)
    ensures
        pid_body_bytes(s1 + s2) == pid_body_bytes(s1) + pid_body_bytes(s2),
    decreases s1.len(),
{
    if s1.len() == 0 {
        assert(s1 + s2 =~= s2);
        assert(pid_body_bytes(s1) + pid_body_bytes(s2) =~= pid_body_bytes(s2));
    } else {
        assert((s1 + s2).drop_first() =~= s1.drop_first() + s2);
        lemma_pid_body_bytes_concat(s1.drop_first(), s2);
        assert(pid_body_bytes(s1 + s2) =~= pid_body_bytes(s1) + pid_body_bytes(s2));
    }
}

/// Each position contributes five bytes.
pub proof fn lemma_pid_body_bytes_len(s: Seq<Pos>)
    ensures
        pid_body_bytes(s).len() == 5 * s.len(),
    decreases s.len(),
{
    lemma_auto_spec_u32_to_from_le_bytes();
    if s.len() > 0 {
        lemma_pid_body_bytes_len(s.drop_first());
    }
}

/// Decode `depth` positions from the start of `s`; `None` when `s` is too
/// short.
pub open spec fn dec_positions(s: Seq<u8>, depth: nat) -> Option<Seq<Pos>>
    decreases depth,
{
    if depth == 0 {
        Some(Seq::empty())
    } else if s.len() < 5 {
        None
    } else {
        let p = Pos { ident: spec_u32_from_le_bytes(s.subrange(0, 4)), site: s[4] };
        match dec_positions(s.skip(5), (depth - 1) as nat) {
            Some(rest) => Some(seq![p] + rest),
            None => None,
        }
    }
}

/// Decoding the wire bytes of a path (followed by anything) yields the path
/// back: the position layer of every round-trip argument.
pub proof fn lemma_dec_positions_round_trip(s: Seq<Pos>, rest: Seq<u8>)
    ensures
        dec_positions(pid_body_bytes(s) + rest, s.len() as nat) == Some(s),
    decreases s.len(),
{
    lemma_auto_spec_u32_to_from_le_bytes();
    if s.len() == 0 {
        assert(dec_positions(pid_body_bytes(s) + rest, 0) =~= Some(Seq::<Pos>::empty()));
        assert(Seq::<Pos>::empty() =~= s);
    } else {
        let all = pid_body_bytes(s) + rest;
        lemma_pid_body_bytes_len(s);
        assert(all.len() >= 5);
        assert(all.subrange(0, 4) =~= spec_u32_to_le_bytes_local(s[0].ident)) by {
            assert(pos_bytes(s[0]).len() == 5);
            assert forall|j: int| 0 <= j < 4 implies all[j] == vstd::bytes::spec_u32_to_le_bytes(
                s[0].ident,
            )[j] by {
                assert(all[j] == pos_bytes(s[0])[j]);
            }
        }
        assert(all[4] == pos_bytes(s[0])[4]);
        assert(all[4] == s[0].site);
        let p = Pos { ident: spec_u32_from_le_bytes(all.subrange(0, 4)), site: all[4] };
        assert(p == s[0]);
        assert(all.skip(5) =~= pid_body_bytes(s.drop_first()) + rest) by {
            lemma_pid_body_bytes_len(s.drop_first());
        }
        lemma_dec_positions_round_trip(s.drop_first(), rest);
        assert(seq![p] + s.drop_first() =~= s);
    }
}

/// Local alias so the proof above can name the closed spec.
pub open spec fn spec_u32_to_le_bytes_local(x: u32) -> Seq<u8> {
    vstd::bytes::spec_u32_to_le_bytes(x)
}

impl Pid {
    /// A depth-one identifier at the given slot, tagged with site 1.
    pub fn new(ident: u32) -> (r: Pid)
        ensures
            r@ =~= seq![Pos { ident, site: 1u8 }],
    {
        let mut v: Vec<Pos> = Vec::new();
        v.push(Pos { ident, site: 1 });
        Pid(v)
    }

    /// Number of levels in the path.
    pub fn depth(&self) -> (r: usize)
        ensures
            r == self@.len(),
    {
        self.0.len()
    }

    /// Append the wire bytes of every position (no depth prefix) to `buf`.
    pub fn write_bytes_buf(&self, buf: &mut Vec<u8>)
        ensures
            final(buf)@ == old(buf)@ + pid_body_bytes(self@),
    {
        let n = self.0.len();
        let mut j: usize = 0;
        while j < n
            invariant
                n == self@.len(),
                0 <= j <= n,
                buf@ == old(buf)@ + pid_body_bytes(self@.subrange(0, j as int)),
            decreases n - j,
        {
            let p = self.0[j];
            p.write_bytes_tobuf(buf);
            proof {
                let one = seq![self@[j as int]];
                assert(self@.subrange(0, j + 1) =~= self@.subrange(0, j as int) + one) by {
                    assert forall|m: int| 0 <= m < j + 1 implies #[trigger] self@.subrange(
                        0,
                        j + 1,
                    )[m] == (self@.subrange(0, j as int) + one)[m] by {
                        assert(self@.subrange(0, j + 1)[m] == self@[m]);
                        if m < j {
                            assert(self@.subrange(0, j as int)[m] == self@[m]);
                        }
                    }
                    assert(self@.subrange(0, j + 1).len() == j + 1);
                    assert(self@.subrange(0, j as int).len() == j as int);
                }
                lemma_pid_body_bytes_concat(self@.subrange(0, j as int), one);
                assert(one.drop_first() =~= Seq::<Pos>::empty());
                assert(pid_body_bytes(Seq::<Pos>::empty()) =~= Seq::<u8>::empty());
                assert(pid_body_bytes(one) =~= pos_bytes(self@[j as int]));
                assert(buf@ =~= old(buf)@ + pid_body_bytes(self@.subrange(0, j + 1)));
            }
            j = j + 1;
        }
        proof {
            assert(self@.subrange(0, n as int) =~= self@);
        }
    }

    /// As [`Pid::write_bytes_buf`]; appending to a byte vector cannot fail.
    pub fn write_bytes(&self, buf: &mut Vec<u8>) -> (r: Result<(), WireError>)
        ensures
            r is Ok,
            final(buf)@ == old(buf)@ + pid_body_bytes(self@),
    {
        self.write_bytes_buf(buf);
        Ok(())
    }

    /// Decode `depth` positions from `buf` at `*i`, advancing `*i` past them.
    pub fn from_reader(buf: &Vec<u8>, i: &mut usize, depth: usize) -> (r: Result<
        Pid,
        WireError,
    >)
        requires
            *old(i) <= buf@.len(),
        ensures
            match r {
                Ok(p) => {
                    &&& dec_positions(buf@.skip(*old(i) as int), depth as nat) == Some(p@)
                    &&& p@.len() == depth
                    &&& *final(i) == *old(i) + 5 * depth <= buf@.len()
                },
                Err(e) => {
                    &&& e == WireError::Truncated
                    &&& dec_positions(buf@.skip(*old(i) as int), depth as nat) is None
                    &&& *final(i) == *old(i)
                },
            },
    {
        let ghost i0 = *i as int;
        let mut j: usize = *i;
        let mut positions: Vec<Pos> = Vec::new();
        let mut k: usize = 0;
        while k < depth
            invariant
                i0 == *old(i) as int,
                k <= depth,
                j == i0 + 5 * k,
                i0 <= j <= buf@.len(),
                positions@.len() == k,
                dec_positions(buf@.skip(i0), depth as nat) is Some <==> dec_positions(
                    buf@.skip(j as int),
                    (depth - k) as nat,
                ) is Some,
                dec_positions(buf@.skip(i0), depth as nat) is Some ==> dec_positions(
                    buf@.skip(i0),
                    depth as nat,
                )->0 == positions@ + dec_positions(buf@.skip(j as int), (depth - k) as nat)->0,
            decreases depth - k,
        {
            let ghost pre = buf@.skip(j as int);
            let ghost jpre = j as int;
            let ghost kpre = k as int;
            let ghost pos_pre = positions@;
            proof {
                assert(pre.len() == buf@.len() - jpre);
            }
            let ident = match read_u32(buf, &mut j) {
                Ok(v) => v,
                Err(_) => {
                    proof {
                        assert(pre.len() < 5);
                        assert(dec_positions(pre, (depth - kpre) as nat) is None);
                        assert(dec_positions(buf@.skip(i0), depth as nat) is None);
                    }
                    return Err(WireError::Truncated);
                },
            };
            let site = match read_u8(buf, &mut j) {
                Ok(v) => v,
                Err(_) => {
                    proof {
                        assert(pre.len() < 5);
                        assert(dec_positions(pre, (depth - kpre) as nat) is None);
                        assert(dec_positions(buf@.skip(i0), depth as nat) is None);
                    }
                    return Err(WireError::Truncated);
                },
            };
            positions.push(Pos { ident, site });
            k = k + 1;
            proof {
                assert(jpre + 5 <= buf@.len());
                assert(pre.len() >= 5);
                assert(pre.subrange(0, 4) =~= buf@.subrange(jpre, jpre + 4)) by {
                    assert forall|m: int| 0 <= m < 4 implies #[trigger] pre.subrange(0, 4)[m]
                        == buf@.subrange(jpre, jpre + 4)[m] by {
                        assert(pre.subrange(0, 4)[m] == pre[m]);
                        assert(pre[m] == buf@[jpre + m]);
                        assert(buf@.subrange(jpre, jpre + 4)[m] == buf@[jpre + m]);
                    }
                    assert(pre.subrange(0, 4).len() == 4);
                    assert(buf@.subrange(jpre, jpre + 4).len() == 4);
                }
                assert(pre[4] == buf@[jpre + 4]);
                let p = Pos { ident: spec_u32_from_le_bytes(pre.subrange(0, 4)), site: pre[4] };
                assert(p == (Pos { ident, site }));
                assert(pre.skip(5) =~= buf@.skip(j as int)) by {
                    assert forall|m: int| 0 <= m < pre.len() - 5 implies #[trigger] pre.skip(
                        5,
                    )[m] == buf@.skip(j as int)[m] by {
                        assert(pre.skip(5)[m] == pre[m + 5]);
                        assert(pre[m + 5] == buf@[jpre + m + 5]);
                        assert(buf@.skip(j as int)[m] == buf@[j + m]);
                    }
                    assert(pre.skip(5).len() == pre.len() - 5);
                    assert(buf@.skip(j as int).len() == buf@.len() - j);
                }
                assert(positions@ =~= pos_pre + seq![p]);
                // one unfolding of the spec decoder over this record
                assert(dec_positions(pre, (depth - kpre) as nat) is Some <==> dec_positions(
                    buf@.skip(j as int),
                    (depth - k) as nat,
                ) is Some);
                if dec_positions(buf@.skip(i0), depth as nat) is Some {
                    let v = dec_positions(buf@.skip(j as int), (depth - k) as nat)->0;
                    assert(dec_positions(pre, (depth - kpre) as nat)->0 == seq![p] + v);
                    assert(pos_pre + (seq![p] + v) =~= (pos_pre + seq![p]) + v);
                }
            }
        }
        proof {
            assert(dec_positions(buf@.skip(j as int), 0) == Some(Seq::<Pos>::empty()));
            assert(positions@ + Seq::<Pos>::empty() =~= positions@);
            assert(dec_positions(buf@.skip(i0), depth as nat) == Some(positions@));
        }
        *i = j;
        Ok(Pid(positions))
    }
}

/// Position assumed at a level of the left bound when its path is exhausted.
pub open spec fn pad_left(s: Seq<Pos>, i: int) -> Pos {
    if 0 <= i < s.len() {
        s[i]
    } else {
        Pos { ident: 0, site: 0 }
    }
}

/// Position assumed at a level of the right bound when its path is exhausted.
pub open spec fn pad_right(s: Seq<Pos>, i: int) -> Pos {
    if 0 <= i < s.len() {
        s[i]
    } else {
        Pos { ident: LBASE, site: 255u8 }
    }
}

/// Depth of the longer of the two bounds.
pub open spec fn max_depth_of(a: Seq<Pos>, b: Seq<Pos>) -> int {
    if a.len() >= b.len() {
        a.len() as int
    } else {
        b.len() as int
    }
}

/// The all-zero position, the least position of all.
pub open spec fn zero_pos() -> Pos {
    Pos { ident: 0, site: 0 }
}

/// A run of `k` all-zero positions.
pub open spec fn zeros(k: nat) -> Seq<Pos> {
    Seq::new(k, |i: int| zero_pos())
}

/// The right bound is the left bound extended by all-zero positions: the
/// descent then finds every level occupied.
pub open spec fn zeros_pad(lp: Seq<Pos>, rp: Seq<Pos>) -> bool {
    rp.len() > lp.len() && rp == lp + zeros((rp.len() - lp.len()) as nat)
}

/// A path extended by one all-zero position is the immediate successor of
/// that path: every identifier above the path sits at or above the
/// extension, so no identifier at all fits strictly between the two — the
/// one pair of bounds the allocator cannot serve is one nothing could
/// serve.
pub proof fn lemma_zero_extension_is_next(lp: Seq<Pos>, x: Seq<Pos>)
    requires
        pid_lt(lp, x),
    ensures
        pid_le(lp.push(zero_pos()), x),
    decreases lp.len(),
{
    let rp = lp.push(zero_pos());
    assert(x.len() > 0);
    if lp.len() == 0 {
        assert(rp.len() == 1 && rp[0] == zero_pos());
        if x[0] == zero_pos() {
            if x.len() == 1 {
                assert(x =~= rp);
            } else {
                assert forall|k: int| 0 <= k < rp.len() implies x[k] == rp[k] by {}
                lemma_ext_gt(rp, x);
            }
        } else {
            assert(pos_lt(zero_pos(), x[0]));
            lemma_diverge(rp, x, 0);
        }
    } else {
        assert(rp[0] == lp[0]);
        if x[0] == lp[0] {
            assert(pid_lt(lp.drop_first(), x.drop_first()));
            lemma_zero_extension_is_next(lp.drop_first(), x.drop_first());
            assert(rp.drop_first() =~= lp.drop_first().push(zero_pos()));
            if lp.drop_first().push(zero_pos()) == x.drop_first() {
                assert(x =~= rp) by {
                    assert forall|k: int| 0 <= k < x.len() implies x[k] == rp[k] by {
                        if k > 0 {
                            assert(x.drop_first()[k - 1] == rp.drop_first()[k - 1]);
                        }
                    }
                    assert(x.len() == rp.len());
                }
            } else {
                assert(pid_lt(rp.drop_first(), x.drop_first()));
                assert(pid_lt(rp, x));
            }
        } else {
            assert(pos_lt(lp[0], x[0]));
            lemma_diverge(rp, x, 0);
        }
    }
}

/// The built prefix has already committed, at some level, to a position
/// strictly below the right bound; any completion of it sorts before the
/// right bound.
pub open spec fn below_right(p: Seq<Pos>, rp: Seq<Pos>) -> bool {
    exists|j: int|
        0 <= j < p.len() && j < rp.len() && (forall|k: int| 0 <= k < j ==> p[k] == rp[k])
            && pos_lt(p[j], rp[j])
}

/// Two paths that agree up to a level where the first sits strictly below
/// the second are ordered.
pub proof fn lemma_diverge(a: Seq<Pos>, b: Seq<Pos>, j: int)
    requires
        0 <= j < a.len(),
        j < b.len(),
        forall|k: int| 0 <= k < j ==> a[k] == b[k],
        pos_lt(a[j], b[j]),
    ensures
        pid_lt(a, b),
{
    assert(a.subrange(0, j) =~= b.subrange(0, j));
    lemma_pid_lt_skip(a, b, j);
    let sa = a.skip(j);
    let sb = b.skip(j);
    assert(sa[0] == a[j]);
    assert(sb[0] == b[j]);
    assert(sa[0] != sb[0]);
}

/// A strict extension of a path sorts after it.
pub proof fn lemma_ext_gt(a: Seq<Pos>, b: Seq<Pos>)
    requires
        b.len() > a.len(),
        forall|k: int| 0 <= k < a.len() ==> b[k] == a[k],
    ensures
        pid_lt(a, b),
{
    assert(a.subrange(0, a.len() as int) =~= b.subrange(0, a.len() as int));
    lemma_pid_lt_skip(a, b, a.len() as int);
    assert(a.skip(a.len() as int).len() == 0);
    assert(b.skip(a.len() as int).len() > 0);
}

/// Once the prefix is below the right bound, any completion stays below it.
pub proof fn lemma_below_right_lt(p: Seq<Pos>, rp: Seq<Pos>, res: Seq<Pos>)
    requires
        below_right(p, rp),
        res.len() >= p.len(),
        forall|k: int| 0 <= k < p.len() ==> res[k] == p[k],
    ensures
        pid_lt(res, rp),
{
    let j = choose|j: int|
        0 <= j < p.len() && j < rp.len() && (forall|k: int| 0 <= k < j ==> p[k] == rp[k])
            && pos_lt(p[j], rp[j]);
    assert(forall|k: int| 0 <= k < j ==> res[k] == rp[k]);
    lemma_diverge(res, rp, j);
}

/// While the descent is still tight against the right bound, the padded
/// bounds at the current level are ordered, and the right bound has not run
/// out unless every level has.
pub proof fn lemma_tight_facts(lp: Seq<Pos>, rp: Seq<Pos>, i: int)
    requires
        pid_lt(lp, rp),
        0 <= i,
        forall|k: int| 0 <= k < i ==> pad_left(lp, k) == pad_right(rp, k),
    ensures
        i < max_depth_of(lp, rp) ==> i < rp.len(),
        pos_le(pad_left(lp, i), pad_right(rp, i)),
{
    if i < max_depth_of(lp, rp) && i >= rp.len() {
        // then lp is longer and rp is a strict prefix of lp
        assert(lp.len() > i);
        assert forall|k: int| 0 <= k < rp.len() implies lp[k] == rp[k] by {
            assert(pad_left(lp, k) == pad_right(rp, k));
        }
        lemma_ext_gt(rp, lp);
        lemma_pid_lt_trichotomy(lp, rp);
        assert(false);
    }
    let l = pad_left(lp, i);
    let r = pad_right(rp, i);
    if i >= lp.len() {
        // l is the all-zero padding, the minimum position
        assert(pos_le(l, r));
    } else if i >= rp.len() {
        // r is the maximal padding
        assert(pos_le(l, r));
    } else {
        assert(lp.subrange(0, i) =~= rp.subrange(0, i)) by {
            assert forall|k: int| 0 <= k < i implies lp[k] == rp[k] by {
                assert(pad_left(lp, k) == pad_right(rp, k));
            }
        }
        lemma_pid_lt_skip(lp, rp, i);
        let sa = lp.skip(i);
        let sb = rp.skip(i);
        assert(sa[0] == lp[i] && sb[0] == rp[i]);
        if lp[i] != rp[i] {
            assert(pos_lt(sa[0], sb[0]));
        }
    }
}

/// Relies on `rand::random_range` over `lo..hi`: a value in the half-open
/// range; nothing more is assumed of a random draw.
#[verifier::external_body]
pub(crate) fn random_in_range(lo: u32, hi: u32) -> (r: u32)
    requires
        lo < hi,
    ensures
        lo <= r < hi,
{
    rand::random_range(lo..hi)
}

/// Every level of the two padded bounds agreeing means the right bound is
/// the left bound extended by all-zero positions.
proof fn lemma_tight_zeros(lp: Seq<Pos>, rp: Seq<Pos>)
    requires
        pid_lt(lp, rp),
        forall|k: int|
            0 <= k < max_depth_of(lp, rp) ==> pad_left(lp, k) == pad_right(rp, k),
    ensures
        zeros_pad(lp, rp),
{
    if rp.len() <= lp.len() {
        assert forall|k: int| 0 <= k < rp.len() implies rp[k] == lp[k] by {
            assert(pad_left(lp, k) == pad_right(rp, k));
        }
        if rp.len() == lp.len() {
            assert(lp =~= rp);
            lemma_pid_lt_trichotomy(lp, rp);
        } else {
            lemma_ext_gt(rp, lp);
            lemma_pid_lt_trichotomy(lp, rp);
        }
        assert(false);
    }
    assert(rp =~= lp + zeros((rp.len() - lp.len()) as nat)) by {
        assert forall|k: int| 0 <= k < rp.len() implies rp[k] == (lp + zeros(
            (rp.len() - lp.len()) as nat,
        ))[k] by {
            assert(pad_left(lp, k) == pad_right(rp, k));
            if k < lp.len() {
            } else {
                assert(pad_left(lp, k) == zero_pos());
            }
        }
    }
}

/// Allocate an identifier for `site_id` between `lp` and `rp`, level by
/// level: a shared position is copied; a same-slot tie is resolved by the
/// caller's site when that site falls strictly between the two, and
/// descended past otherwise; a gap wider than one is filled with a
/// uniformly random slot; an adjacent pair is descended past; and
/// exhausting every level appends one new level with a random slot, or
/// steps just short of a right bound made of all-zero extensions. Existing
/// identifiers are never renumbered. For any ordered bounds the result
/// lands strictly between them — except the one pair no identifier can
/// separate ([`lemma_no_identifier_between`]). Away from all-zero
/// extensions the last level carries the caller's site, so concurrent
/// allocations by different sites never collide.
pub fn generate_between_pids(lp: &Pid, rp: &Pid, site_id: u8) -> (res: Pid)
    ensures
        res@.len() >= 1,
        res@.len() <= max_depth_of(lp@, rp@) + 1,
        pid_lt(lp@, rp@) && rp@ != lp@.push(zero_pos()) ==> pid_lt(lp@, res@) && pid_lt(
            res@,
            rp@,
        ),
        pid_lt(lp@, rp@) && !zeros_pad(lp@, rp@) ==> res@.last().site == site_id,
{
    let mut p: Vec<Pos> = Vec::new();
    let maxd: usize = if lp.0.len() >= rp.0.len() {
        lp.0.len()
    } else {
        rp.0.len()
    };
    let ghost ord = pid_lt(lp@, rp@);
    let mut tight: bool = true;
    let mut i: usize = 0;
    while i < maxd
        invariant
            maxd == max_depth_of(lp@, rp@),
            0 <= i <= maxd,
            p@.len() == i,
            forall|k: int| 0 <= k < i ==> p@[k] == pad_left(lp@, k),
            ord == pid_lt(lp@, rp@),
            tight ==> forall|k: int| 0 <= k < i ==> pad_left(lp@, k) == pad_right(rp@, k),
            ord && !tight ==> below_right(p@, rp@),
        decreases maxd - i,
    {
        let l: Pos = if i < lp.0.len() {
            lp.0[i]
        } else {
            Pos { ident: 0, site: 0 }
        };
        let r: Pos = if i < rp.0.len() {
            rp.0[i]
        } else {
            Pos { ident: LBASE, site: 255 }
        };
        proof {
            assert(l == pad_left(lp@, i as int));
            assert(r == pad_right(rp@, i as int));
        }
        if l == r {
            let ghost p_pre = p@;
            p.push(l);
            proof {
                if ord && !tight {
                    let j = choose|j: int|
                        0 <= j < p_pre.len() && j < rp@.len() && (forall|k: int|
                            0 <= k < j ==> p_pre[k] == rp@[k]) && pos_lt(p_pre[j], rp@[j]);
                    assert(0 <= j < p@.len() && j < rp@.len() && (forall|k: int|
                        0 <= k < j ==> p@[k] == rp@[k]) && pos_lt(p@[j], rp@[j]));
                }
            }
            i = i + 1;
            continue ;
        }
        if l.ident == r.ident {
            if l.site < site_id && site_id < r.site {
                // same slot, the caller's site fits strictly between
                let ghost p_pre = p@;
                p.push(Pos { ident: l.ident, site: site_id });
                proof {
                    if ord {
                        let res = p@;
                        let ii = i as int;
                        if ii < lp@.len() {
                            lemma_diverge(lp@, res, ii);
                        } else {
                            lemma_ext_gt(lp@, res);
                        }
                        if tight {
                            lemma_tight_facts(lp@, rp@, ii);
                            assert(ii < rp@.len());
                            assert forall|k: int| 0 <= k < ii implies res[k] == rp@[k] by {
                                assert(pad_left(lp@, k) == pad_right(rp@, k));
                            }
                            lemma_diverge(res, rp@, ii);
                        } else {
                            lemma_below_right_lt(p_pre, rp@, res);
                        }
                    }
                }
                return Pid(p);
            }
            // same slot without room for this site: keep the left
            // position and descend
            let ghost p_pre = p@;
            p.push(l);
            proof {
                if ord {
                    if tight {
                        lemma_tight_facts(lp@, rp@, i as int);
                        assert(pos_le(l, r));
                        assert(pos_lt(l, r));
                        assert(i < rp@.len());
                        assert forall|k: int| 0 <= k < i implies p@[k] == rp@[k] by {
                            assert(pad_left(lp@, k) == pad_right(rp@, k));
                        }
                        assert(p@[i as int] == l && rp@[i as int] == r);
                        assert(below_right(p@, rp@));
                    } else {
                        let j = choose|j: int|
                            0 <= j < p_pre.len() && j < rp@.len() && (forall|k: int|
                                0 <= k < j ==> p_pre[k] == rp@[k]) && pos_lt(p_pre[j], rp@[j]);
                        assert(0 <= j < p@.len() && j < rp@.len() && (forall|k: int|
                            0 <= k < j ==> p@[k] == rp@[k]) && pos_lt(p@[j], rp@[j]));
                    }
                }
            }
            tight = false;
            i = i + 1;
            continue ;
        }
        let d: u32 = if r.ident > l.ident {
            r.ident - l.ident
        } else {
            0
        };
        if d > 1 {
            let v = random_in_range(l.ident + 1, r.ident);
            let ghost p_pre = p@;
            p.push(Pos { ident: v, site: site_id });
            proof {
                if ord {
                    let res = p@;
                    let ii = i as int;
                    if ii < lp@.len() {
                        lemma_diverge(lp@, res, ii);
                    } else {
                        lemma_ext_gt(lp@, res);
                    }
                    if tight {
                        lemma_tight_facts(lp@, rp@, ii);
                        assert(ii < rp@.len());
                        assert forall|k: int| 0 <= k < ii implies res[k] == rp@[k] by {
                            assert(pad_left(lp@, k) == pad_right(rp@, k));
                        }
                        lemma_diverge(res, rp@, ii);
                    } else {
                        lemma_below_right_lt(p_pre, rp@, res);
                    }
                }
            }
            return Pid(p);
        } else {
            // adjacent slots: keep the left position and descend
            let ghost p_pre = p@;
            p.push(l);
            proof {
                if ord {
                    if tight {
                        lemma_tight_facts(lp@, rp@, i as int);
                        assert(pos_le(l, r));
                        assert(pos_lt(l, r));
                        assert(i < rp@.len());
                        assert forall|k: int| 0 <= k < i implies p@[k] == rp@[k] by {
                            assert(pad_left(lp@, k) == pad_right(rp@, k));
                        }
                        assert(p@[i as int] == l && rp@[i as int] == r);
                        assert(below_right(p@, rp@));
                    } else {
                        let j = choose|j: int|
                            0 <= j < p_pre.len() && j < rp@.len() && (forall|k: int|
                                0 <= k < j ==> p_pre[k] == rp@[k]) && pos_lt(p_pre[j], rp@[j]);
                        assert(0 <= j < p@.len() && j < rp@.len() && (forall|k: int|
                            0 <= k < j ==> p@[k] == rp@[k]) && pos_lt(p@[j], rp@[j]));
                    }
                }
            }
            tight = false;
            i = i + 1;
        }
    }
    if tight && rp.0.len() >= 2 && rp.0.len() - 2 >= lp.0.len() {
        // every shared level is occupied and the right bound is a run of
        // all-zero extensions: step just short of it
        proof {
            if ord {
                lemma_tight_zeros(lp@, rp@);
                assert(p@ =~= rp@) by {
                    assert forall|k: int| 0 <= k < maxd implies p@[k] == rp@[k] by {
                        assert(p@[k] == pad_left(lp@, k));
                        assert(pad_left(lp@, k) == pad_right(rp@, k));
                    }
                }
            }
        }
        let _ = p.pop();
        proof {
            if ord {
                assert(p@ =~= rp@.drop_last());
                assert forall|k: int| 0 <= k < lp@.len() implies p@[k] == lp@[k] by {
                    assert(p@[k] == rp@[k]);
                    assert(pad_left(lp@, k) == pad_right(rp@, k));
                }
                lemma_ext_gt(lp@, p@);
                assert(rp@ =~= p@.push(rp@.last()));
                lemma_ext_gt(p@, rp@);
            }
        }
        return Pid(p);
    }
    // no usable level among the shared ones: extend the depth by one
    // random level
    let v = random_in_range(0, LBASE);
    let ghost p_pre = p@;
    p.push(Pos { ident: v, site: site_id });
    proof {
        if ord {
            if tight {
                // only a right bound of all-zero extensions reaches here
                // tight, and then it is exactly one level deeper
                lemma_tight_zeros(lp@, rp@);
                assert(rp@.len() == lp@.len() + 1);
                assert(zeros(1) =~= seq![zero_pos()]);
                assert(rp@ =~= lp@.push(zero_pos()));
            } else {
                let res = p@;
                assert(maxd >= lp@.len());
                assert forall|k: int| 0 <= k < lp@.len() implies res[k] == lp@[k] by {
                    assert(pad_left(lp@, k) == lp@[k]);
                }
                lemma_ext_gt(lp@, res);
                lemma_below_right_lt(p_pre, rp@, res);
            }
        }
    }
    Pid(p)
}

/// Identifiers whose final levels carry different sites are distinct: two
/// sites that concurrently allocate at the same bounds can never produce the
/// same identifier.
pub proof fn lemma_distinct_sites_distinct_pids(a: Seq<Pos>, b: Seq<Pos>)
    requires
        a.len() > 0,
        b.len() > 0,
        a.last().site != b.last().site,
    ensures
        a != b,
{
    if a == b {
        assert(a.last() == b.last());
    }
}

} // verus!

