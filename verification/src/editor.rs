//! Frames from a local editor front end: batched index-based insertions
//! and deletions, decoded from their binary form.

use crate::wire::{char_from_u32, read_u32, WireError};
use vstd::bytes::spec_u32_from_le_bytes;
use vstd::prelude::*;
use vstd::utf8::is_scalar;

verus! {

/// One update frame from the editor front end.
#[derive(Debug, Clone)]
pub enum EditorMessage {
    Update { inserts: Vec<(u32, char)>, deletes: Vec<u32> },
}

/// Decode `n` insertion pairs — an index and a character code point, four
/// little-endian bytes each — from the start of `bs`.
pub open spec fn dec_pairs(bs: Seq<u8>, n: nat) -> Option<(Seq<(u32, char)>, int)>
    decreases n,
{
    if n == 0 {
        Option::Some((Seq::empty(), 0))
    } else if bs.len() < 8 {
        Option::None
    } else {
        let idx = spec_u32_from_le_bytes(bs.subrange(0, 4));
        let code = spec_u32_from_le_bytes(bs.subrange(4, 8));
        if !is_scalar(code) {
            Option::None
        } else {
            match dec_pairs(bs.skip(8), (n - 1) as nat) {
                Option::None => Option::None,
                Option::Some((rest, used)) => Option::Some(
                    (seq![(idx, code as char)] + rest, 8 + used),
                ),
            }
        }
    }
}

/// Decode `m` deletion indices from the start of `bs`.
pub open spec fn dec_indices(bs: Seq<u8>, m: nat) -> Option<(Seq<u32>, int)>
    decreases m,
{
    if m == 0 {
        Option::Some((Seq::empty(), 0))
    } else if bs.len() < 4 {
        Option::None
    } else {
        let idx = spec_u32_from_le_bytes(bs.subrange(0, 4));
        match dec_indices(bs.skip(4), (m - 1) as nat) {
            Option::None => Option::None,
            Option::Some((rest, used)) => Option::Some((seq![idx] + rest, 4 + used)),
        }
    }
}

/// Decode a whole update frame: an insertion count, that many pairs, a
/// deletion count, that many indices; trailing bytes are ignored.
pub open spec fn editor_dec(bs: Seq<u8>) -> Option<(Seq<(u32, char)>, Seq<u32>)> {
    if bs.len() < 4 {
        Option::None
    } else {
        let n = spec_u32_from_le_bytes(bs.subrange(0, 4));
        match dec_pairs(bs.skip(4), n as nat) {
            Option::None => Option::None,
            Option::Some((ins, used)) => {
                if used < 0 || used > bs.len() - 4 {
                    Option::None
                } else {
                    let rest = bs.skip(4 + used);
                    if rest.len() < 4 {
                        Option::None
                    } else {
                        let m = spec_u32_from_le_bytes(rest.subrange(0, 4));
                        match dec_indices(rest.skip(4), m as nat) {
                            Option::None => Option::None,
                            Option::Some((del, used2)) => Option::Some((ins, del)),
                        }
                    }
                }
            },
        }
    }
}

impl EditorMessage {
    /// Decode an update frame; every truncated buffer or code point that
    /// is not a Unicode scalar yields a typed error.
    pub fn deserialize(buf: &Vec<u8>) -> (r: Result<EditorMessage, WireError>)
        ensures
            r is Ok <==> editor_dec(buf@) is Some,
            r is Ok ==> {
                let w = editor_dec(buf@)->0;
                r->Ok_0->Update_inserts@ == w.0 && r->Ok_0->Update_deletes@ == w.1
            },
    {
        let mut i: usize = 0;
        let n_ins = match read_u32(buf, &mut i) {
            Ok(v) => v,
            Err(e) => {
                return Err(e);
            },
        };
        proof {
            assert(buf@.subrange(0, 4) =~= buf@.subrange(0int, 4int));
        }
        let ghost pstart = i as int;
        let mut inserts: Vec<(u32, char)> = Vec::new();
        let mut k: u32 = 0;
        while k < n_ins
            invariant
                pstart == 4,
                buf@.len() >= 4,
                n_ins == spec_u32_from_le_bytes(buf@.subrange(0, 4)),
                4 <= i <= buf@.len(),
                i == 4 + 8 * k,
                0 <= k <= n_ins,
                inserts@.len() == k,
                dec_pairs(buf@.skip(pstart), n_ins as nat) is Some <==> dec_pairs(
                    buf@.skip(i as int),
                    (n_ins - k) as nat,
                ) is Some,
                dec_pairs(buf@.skip(pstart), n_ins as nat) is Some ==> {
                    let whole = dec_pairs(buf@.skip(pstart), n_ins as nat)->0;
                    let inner = dec_pairs(buf@.skip(i as int), (n_ins - k) as nat)->0;
                    whole.0 == inserts@ + inner.0 && whole.1 == (i - pstart) + inner.1
                },
            decreases n_ins - k,
        {
            let ghost jpre = i as int;
            let ghost pre = buf@.skip(jpre);
            proof {
                assert(pre.len() == buf@.len() - jpre);
            }
            let idx = match read_u32(buf, &mut i) {
                Ok(v) => v,
                Err(_) => {
                    proof {
                        assert(pre.len() < 8);
                        assert(dec_pairs(buf@.skip(jpre), (n_ins - k) as nat) is None);
                    }
                    return Err(WireError::Truncated);
                },
            };
            let code = match read_u32(buf, &mut i) {
                Ok(v) => v,
                Err(_) => {
                    proof {
                        assert(pre.len() < 8);
                        assert(dec_pairs(buf@.skip(jpre), (n_ins - k) as nat) is None);
                    }
                    return Err(WireError::Truncated);
                },
            };
            proof {
                assert(pre.subrange(0, 4) =~= buf@.subrange(jpre, jpre + 4)) by {
                    assert forall|m: int| 0 <= m < 4 implies #[trigger] pre.subrange(0, 4)[m]
                        == buf@.subrange(jpre, jpre + 4)[m] by {
                        assert(pre.subrange(0, 4)[m] == pre[m]);
                        assert(pre[m] == buf@[jpre + m]);
                        assert(buf@.subrange(jpre, jpre + 4)[m] == buf@[jpre + m]);
                    }
                    assert(pre.subrange(0, 4).len() == 4);
                }
                assert(pre.subrange(4, 8) =~= buf@.subrange(jpre + 4, jpre + 8)) by {
                    assert forall|m: int| 0 <= m < 4 implies #[trigger] pre.subrange(4, 8)[m]
                        == buf@.subrange(jpre + 4, jpre + 8)[m] by {
                        assert(pre.subrange(4, 8)[m] == pre[4 + m]);
                        assert(pre[4 + m] == buf@[jpre + 4 + m]);
                        assert(buf@.subrange(jpre + 4, jpre + 8)[m] == buf@[jpre + 4 + m]);
                    }
                    assert(pre.subrange(4, 8).len() == 4);
                }
            }
            let c = match char_from_u32(code) {
                Some(c) => c,
                None => {
                    proof {
                        assert(dec_pairs(buf@.skip(jpre), (n_ins - k) as nat) is None);
                    }
                    return Err(WireError::BadChar);
                },
            };
            let ghost ins_pre = inserts@;
            inserts.push((idx, c));
            k = k + 1;
            proof {
                assert(pre.skip(8) =~= buf@.skip(i as int)) by {
                    assert forall|m: int| 0 <= m < pre.len() - 8 implies #[trigger] pre.skip(
                        8,
                    )[m] == buf@.skip(i as int)[m] by {
                        assert(pre.skip(8)[m] == pre[8 + m]);
                        assert(pre[8 + m] == buf@[jpre + 8 + m]);
                        assert(buf@.skip(i as int)[m] == buf@[i + m]);
                    }
                    assert(pre.skip(8).len() == pre.len() - 8);
                    assert(buf@.skip(i as int).len() == buf@.len() - i);
                }
                if dec_pairs(buf@.skip(pstart), n_ins as nat) is Some {
                    let inner = dec_pairs(buf@.skip(i as int), (n_ins - k) as nat)->0;
                    let cur = dec_pairs(pre, (n_ins - k + 1) as nat)->0;
                    assert(cur.0 == seq![(idx, c)] + inner.0);
                    assert(ins_pre + (seq![(idx, c)] + inner.0) =~= inserts@ + inner.0);
                }
            }
        }
        proof {
            assert(dec_pairs(buf@.skip(i as int), 0) == Some((Seq::<(u32, char)>::empty(), 0int)));
            if dec_pairs(buf@.skip(pstart), n_ins as nat) is Some {
                let whole = dec_pairs(buf@.skip(pstart), n_ins as nat)->0;
                assert(inserts@ + Seq::<(u32, char)>::empty() =~= inserts@);
                assert(whole.0 == inserts@ && whole.1 == i - pstart);
            }
        }
        let ghost mid = i as int;
        let n_del = match read_u32(buf, &mut i) {
            Ok(v) => v,
            Err(_) => {
                proof {
                    assert(buf@.skip(mid).len() < 4);
                    assert(editor_dec(buf@) is None);
                }
                return Err(WireError::Truncated);
            },
        };
        proof {
            assert(buf@.subrange(mid, mid + 4) =~= buf@.skip(mid).subrange(0, 4)) by {
                assert forall|m: int| 0 <= m < 4 implies #[trigger] buf@.subrange(
                    mid,
                    mid + 4,
                )[m] == buf@.skip(mid).subrange(0, 4)[m] by {
                    assert(buf@.subrange(mid, mid + 4)[m] == buf@[mid + m]);
                    assert(buf@.skip(mid).subrange(0, 4)[m] == buf@.skip(mid)[m]);
                    assert(buf@.skip(mid)[m] == buf@[mid + m]);
                }
                assert(buf@.subrange(mid, mid + 4).len() == 4);
                assert(buf@.skip(mid).subrange(0, 4).len() == 4);
            }
        }
        let ghost dstart = i as int;
        proof {
            assert(buf@.skip(mid).skip(4) =~= buf@.skip(dstart)) by {
                assert forall|m: int| 0 <= m < buf@.len() - dstart implies #[trigger] buf@.skip(
                    mid,
                ).skip(4)[m] == buf@.skip(dstart)[m] by {
                    assert(buf@.skip(mid).skip(4)[m] == buf@.skip(mid)[4 + m]);
                    assert(buf@.skip(mid)[4 + m] == buf@[mid + 4 + m]);
                    assert(buf@.skip(dstart)[m] == buf@[dstart + m]);
                }
                assert(buf@.skip(mid).skip(4).len() == buf@.len() - mid - 4);
                assert(buf@.skip(dstart).len() == buf@.len() - dstart);
            }
        }
        let mut deletes: Vec<u32> = Vec::new();
        let mut m: u32 = 0;
        while m < n_del
            invariant
                buf@.len() >= 4,
                n_ins == spec_u32_from_le_bytes(buf@.subrange(0, 4)),
                dec_pairs(buf@.skip(4), n_ins as nat) matches Some(w) && w.0 == inserts@ && w.1
                    == dstart - 8,
                n_del == spec_u32_from_le_bytes(buf@.skip(dstart - 4).subrange(0, 4)),
                buf@.skip(dstart - 4).skip(4) == buf@.skip(dstart),
                8 <= dstart <= i <= buf@.len(),
                i == dstart + 4 * m,
                0 <= m <= n_del,
                deletes@.len() == m,
                dec_indices(buf@.skip(dstart), n_del as nat) is Some <==> dec_indices(
                    buf@.skip(i as int),
                    (n_del - m) as nat,
                ) is Some,
                dec_indices(buf@.skip(dstart), n_del as nat) is Some ==> {
                    let whole = dec_indices(buf@.skip(dstart), n_del as nat)->0;
                    let inner = dec_indices(buf@.skip(i as int), (n_del - m) as nat)->0;
                    whole.0 == deletes@ + inner.0 && whole.1 == (i - dstart) + inner.1
                },
            decreases n_del - m,
        {
            let ghost jpre = i as int;
            let ghost pre = buf@.skip(jpre);
            proof {
                assert(pre.len() == buf@.len() - jpre);
            }
            let idx = match read_u32(buf, &mut i) {
                Ok(v) => v,
                Err(_) => {
                    proof {
                        assert(pre.len() < 4);
                        assert(dec_indices(buf@.skip(jpre), (n_del - m) as nat) is None);
                        assert(editor_dec(buf@) is None);
                    }
                    return Err(WireError::Truncated);
                },
            };
            proof {
                assert(pre.subrange(0, 4) =~= buf@.subrange(jpre, jpre + 4)) by {
                    assert forall|w: int| 0 <= w < 4 implies #[trigger] pre.subrange(0, 4)[w]
                        == buf@.subrange(jpre, jpre + 4)[w] by {
                        assert(pre.subrange(0, 4)[w] == pre[w]);
                        assert(pre[w] == buf@[jpre + w]);
                        assert(buf@.subrange(jpre, jpre + 4)[w] == buf@[jpre + w]);
                    }
                    assert(pre.subrange(0, 4).len() == 4);
                }
            }
            let ghost del_pre = deletes@;
            deletes.push(idx);
            m = m + 1;
            proof {
                assert(pre.skip(4) =~= buf@.skip(i as int)) by {
                    assert forall|w: int| 0 <= w < pre.len() - 4 implies #[trigger] pre.skip(
                        4,
                    )[w] == buf@.skip(i as int)[w] by {
                        assert(pre.skip(4)[w] == pre[4 + w]);
                        assert(pre[4 + w] == buf@[jpre + 4 + w]);
                        assert(buf@.skip(i as int)[w] == buf@[i + w]);
                    }
                    assert(pre.skip(4).len() == pre.len() - 4);
                    assert(buf@.skip(i as int).len() == buf@.len() - i);
                }
                if dec_indices(buf@.skip(dstart), n_del as nat) is Some {
                    let inner = dec_indices(buf@.skip(i as int), (n_del - m) as nat)->0;
                    let cur = dec_indices(pre, (n_del - m + 1) as nat)->0;
                    assert(cur.0 == seq![idx] + inner.0);
                    assert(del_pre + (seq![idx] + inner.0) =~= deletes@ + inner.0);
                }
            }
        }
        proof {
            assert(dec_indices(buf@.skip(i as int), 0) == Some((Seq::<u32>::empty(), 0int)));
            assert(dec_indices(buf@.skip(dstart), n_del as nat) is Some);
            assert(deletes@ + Seq::<u32>::empty() =~= deletes@);
            assert(editor_dec(buf@) is Some);
            let w = editor_dec(buf@)->0;
            assert(w.0 == inserts@ && w.1 == deletes@);
        }
        Ok(EditorMessage::Update { inserts, deletes })
    }
}

} // verus!
