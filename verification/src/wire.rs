//! Low-level wire plumbing shared by every codec: typed decode errors,
//! little-endian integer fields, and the UTF-8 form of a single character.
//!
//! A decoder never panics on malformed input; every truncated buffer, invalid
//! UTF-8 run or unknown opcode surfaces as a [`WireError`].

use vstd::bytes::*;
use vstd::prelude::*;
use vstd::slice::slice_subrange;
use vstd::utf8::{decode_utf8, encode_scalar, encode_utf8, is_scalar, valid_utf8};

verus! {

/// Why a buffer failed to decode.
#[derive(Debug, Clone, Copy, PartialEq, Eq, Structural)]
pub enum WireError {
    /// The buffer ended before the field that was being read.
    Truncated,
    /// The leading opcode byte does not belong to the message family.
    BadOpcode,
    /// A character field did not hold exactly one UTF-8 encoded scalar.
    BadChar,
    /// A text field was not valid UTF-8.
    BadUtf8,
    /// An identifier field had depth zero or a record was otherwise malformed.
    BadRecord,
}

/// Read one byte at `*i`, advancing `*i` past it.
pub fn read_u8(buf: &Vec<u8>, i: &mut usize) -> (r: Result<u8, WireError>)
    ensures
        match r {
            Ok(b) => *old(i) < buf@.len() && b == buf@[*old(i) as int] && *final(i) == *old(i) + 1,
            Err(e) => e == WireError::Truncated && *old(i) >= buf@.len() && *final(i) == *old(i),
        },
{
    if *i < buf.len() {
        let b = buf[*i];
        *i = *i + 1;
        Ok(b)
    } else {
        Err(WireError::Truncated)
    }
}

/// Read a little-endian `u32` at `*i`, advancing `*i` past it.
pub fn read_u32(buf: &Vec<u8>, i: &mut usize) -> (r: Result<u32, WireError>)
    ensures
        match r {
            Ok(v) => {
                &&& *old(i) + 4 <= buf@.len()
                &&& v == spec_u32_from_le_bytes(buf@.subrange(*old(i) as int, *old(i) + 4))
                &&& *final(i) == *old(i) + 4
            },
            Err(e) => e == WireError::Truncated && *old(i) + 4 > buf@.len() && *final(i) == *old(i),
        },
{
    if buf.len() >= 4 && *i <= buf.len() - 4 {
        let s = slice_subrange(buf.as_slice(), *i, *i + 4);
        let v = u32_from_le_bytes(s);
        *i = *i + 4;
        Ok(v)
    } else {
        Err(WireError::Truncated)
    }
}

/// Read a little-endian `u64` at `*i`, advancing `*i` past it.
pub fn read_u64(buf: &Vec<u8>, i: &mut usize) -> (r: Result<u64, WireError>)
    ensures
        match r {
            Ok(v) => {
                &&& *old(i) + 8 <= buf@.len()
                &&& v == spec_u64_from_le_bytes(buf@.subrange(*old(i) as int, *old(i) + 8))
                &&& *final(i) == *old(i) + 8
            },
            Err(e) => e == WireError::Truncated && *old(i) + 8 > buf@.len() && *final(i) == *old(i),
        },
{
    if buf.len() >= 8 && *i <= buf.len() - 8 {
        let s = slice_subrange(buf.as_slice(), *i, *i + 8);
        let v = u64_from_le_bytes(s);
        *i = *i + 8;
        Ok(v)
    } else {
        Err(WireError::Truncated)
    }
}

/// Read a little-endian `u128` at `*i`, advancing `*i` past it.
pub fn read_u128(buf: &Vec<u8>, i: &mut usize) -> (r: Result<u128, WireError>)
    ensures
        match r {
            Ok(v) => {
                &&& *old(i) + 16 <= buf@.len()
                &&& v == spec_u128_from_le_bytes(buf@.subrange(*old(i) as int, *old(i) + 16))
                &&& *final(i) == *old(i) + 16
            },
            Err(e) => e == WireError::Truncated && *old(i) + 16 > buf@.len() && *final(i) == *old(i),
        },
{
    if buf.len() >= 16 && *i <= buf.len() - 16 {
        let s = slice_subrange(buf.as_slice(), *i, *i + 16);
        let v = u128_from_le_bytes(s);
        *i = *i + 16;
        Ok(v)
    } else {
        Err(WireError::Truncated)
    }
}

/// Append the four little-endian bytes of `v` to `buf`.
pub fn write_u32(buf: &mut Vec<u8>, v: u32)
    ensures
        final(buf)@ == old(buf)@ + spec_u32_to_le_bytes(v),
{
    let mut bytes = u32_to_le_bytes(v);
    buf.append(&mut bytes);
}

/// Append the eight little-endian bytes of `v` to `buf`.
pub fn write_u64(buf: &mut Vec<u8>, v: u64)
    ensures
        final(buf)@ == old(buf)@ + spec_u64_to_le_bytes(v),
{
    let mut bytes = u64_to_le_bytes(v);
    buf.append(&mut bytes);
}

/// Append the sixteen little-endian bytes of `v` to `buf`.
pub fn write_u128(buf: &mut Vec<u8>, v: u128)
    ensures
        final(buf)@ == old(buf)@ + spec_u128_to_le_bytes(v),
{
    let mut bytes = u128_to_le_bytes(v);
    buf.append(&mut bytes);
}

/// The UTF-8 bytes of one character.
pub open spec fn char_bytes(c: char) -> Seq<u8> {
    encode_scalar(c as u32)
}

/// Relies on `char::from_u32`: `Some` exactly for Unicode scalar values, and
/// the returned character has the given value.
#[verifier::external_body]
pub fn char_from_u32(v: u32) -> (r: Option<char>)
    ensures
        r is Some <==> is_scalar(v),
        r is Some ==> r->0 == v as char,
{
    char::from_u32(v)
}

/// Relies on `String::from_utf8`: `Ok` exactly on valid UTF-8, holding the
/// decoded character sequence.
#[verifier::external_body]
pub fn string_from_utf8(bytes: Vec<u8>) -> (r: Result<String, WireError>)
    ensures
        r is Ok <==> valid_utf8(bytes@),
        r is Ok ==> r->Ok_0@ == decode_utf8(bytes@),
        r is Err ==> r->Err_0 == WireError::BadUtf8,
{
    match String::from_utf8(bytes) {
        Ok(s) => Ok(s),
        Err(_) => Err(WireError::BadUtf8),
    }
}

/// Relies on `String::push`: appends one character.
#[verifier::external_body]
pub fn push_char(s: &mut String, c: char)
    ensures
        final(s)@ == old(s)@.push(c),
{
    s.push(c)
}


/// The length-prefixed wire form of one character: one byte holding the
/// UTF-8 width, then the UTF-8 bytes themselves.
pub open spec fn char_field_bytes(c: char) -> Seq<u8> {
    seq![char_bytes(c).len() as u8] + char_bytes(c)
}

/// Append the UTF-8 bytes of `c` (without the length prefix) to `buf`.
pub fn write_char(buf: &mut Vec<u8>, c: char)
    ensures
        final(buf)@ == old(buf)@ + char_bytes(c),
{
    let v = c as u32;
    proof {
        vstd::utf8::char_is_scalar(c);
    }
    if v < 0x80 {
        buf.push((v & 0x7F) as u8);
        proof {
            assert(buf@ =~= old(buf)@ + char_bytes(c));
        }
    } else if v < 0x800 {
        buf.push(0xC0 | ((v >> 6) & 0x1F) as u8);
        buf.push(0x80 | (v & 0x3F) as u8);
        proof {
            assert(buf@ =~= old(buf)@ + char_bytes(c));
        }
    } else if v < 0x10000 {
        buf.push(0xE0 | ((v >> 12) & 0x0F) as u8);
        buf.push(0x80 | ((v >> 6) & 0x3F) as u8);
        buf.push(0x80 | (v & 0x3F) as u8);
        proof {
            assert(buf@ =~= old(buf)@ + char_bytes(c));
        }
    } else {
        buf.push(0xF0 | ((v >> 18) & 0x7) as u8);
        buf.push(0x80 | ((v >> 12) & 0x3F) as u8);
        buf.push(0x80 | ((v >> 6) & 0x3F) as u8);
        buf.push(0x80 | (v & 0x3F) as u8);
        proof {
            assert(buf@ =~= old(buf)@ + char_bytes(c));
        }
    }
}

/// The UTF-8 width of `c`, between one and four.
pub fn char_len(c: char) -> (n: u8)
    ensures
        n as int == char_bytes(c).len(),
        1 <= n <= 4,
{
    let v = c as u32;
    proof {
        vstd::utf8::char_is_scalar(c);
    }
    if v < 0x80 {
        1
    } else if v < 0x800 {
        2
    } else if v < 0x10000 {
        3
    } else {
        4
    }
}

/// Append the length-prefixed UTF-8 form of `c` to `buf`.
pub fn write_char_field(buf: &mut Vec<u8>, c: char)
    ensures
        final(buf)@ == old(buf)@ + char_field_bytes(c),
{
    let n = char_len(c);
    buf.push(n);
    write_char(buf, c);
    proof {
        assert(buf@ =~= old(buf)@ + char_field_bytes(c));
    }
}

/// Decode a length-prefixed character field from the start of `s`: the
/// width byte must be one through four and the bytes must hold exactly one
/// UTF-8 scalar.
pub open spec fn dec_char_field(s: Seq<u8>) -> Option<(char, int)> {
    if s.len() < 1 {
        None
    } else {
        let dl = s[0] as int;
        if dl < 1 || dl > 4 || s.len() < 1 + dl {
            None
        } else {
            let bytes = s.subrange(1, 1 + dl);
            if valid_utf8(bytes) && decode_utf8(bytes).len() == 1 {
                Some((decode_utf8(bytes)[0], 1 + dl))
            } else {
                None
            }
        }
    }
}

/// Encoding one character and decoding it back yields the character.
pub proof fn lemma_char_field_round_trip(c: char, rest: Seq<u8>)
    ensures
        dec_char_field(char_field_bytes(c) + rest) == Some::<(char, int)>((
            c,
            char_bytes(c).len() + 1 as int,
        )),
{
    vstd::utf8::char_is_scalar(c);
    let one = seq![c];
    assert(encode_utf8(one).len() > 0 ==> true);
    assert(encode_utf8(one) =~= char_bytes(c)) by {
        assert(one.drop_first() =~= Seq::<char>::empty());
        assert(encode_utf8(one.drop_first()) =~= Seq::<u8>::empty());
        assert(encode_utf8(one) =~= encode_scalar(c as u32) + encode_utf8(one.drop_first()));
    }
    vstd::utf8::encode_utf8_valid_utf8(one);
    vstd::utf8::encode_utf8_decode_utf8(one);
    let all = char_field_bytes(c) + rest;
    let n = char_bytes(c).len() as int;
    assert(1 <= n <= 4);
    assert(all[0] == n as u8);
    assert(all.len() >= 1 + n);
    assert(all.subrange(1, 1 + n) =~= char_bytes(c));
}

/// Decode a length-prefixed character field from `buf` at `*i`, advancing
/// `*i` past it.
pub fn read_char_field(buf: &Vec<u8>, i: &mut usize) -> (r: Result<char, WireError>)
    requires
        *old(i) <= buf@.len(),
    ensures
        match r {
            Ok(c) => {
                &&& dec_char_field(buf@.skip(*old(i) as int)) matches Some(w) && w.0 == c
                    && *final(i) == *old(i) + w.1
                &&& *final(i) <= buf@.len()
            },
            Err(_) => {
                &&& dec_char_field(buf@.skip(*old(i) as int)) is None
                &&& *final(i) == *old(i)
            },
        },
{
    let ghost s = buf@.skip(*old(i) as int);
    let mut j: usize = *i;
    let dl = match read_u8(buf, &mut j) {
        Ok(v) => v,
        Err(_) => {
            proof {
                assert(s.len() == 0);
            }
            return Err(WireError::Truncated);
        },
    };
    if dl < 1 || dl > 4 {
        return Err(WireError::BadChar);
    }
    if buf.len() - j < dl as usize {
        proof {
            assert(s.len() < 1 + dl as int);
        }
        return Err(WireError::Truncated);
    }
    let raw = vstd::slice::slice_to_vec(vstd::slice::slice_subrange(
        buf.as_slice(),
        j,
        j + dl as usize,
    ));
    proof {
        assert(raw@ =~= s.subrange(1, 1 + dl as int));
    }
    let text = match string_from_utf8(raw) {
        Ok(t) => t,
        Err(_) => {
            return Err(WireError::BadUtf8);
        },
    };
    if text.as_str().unicode_len() != 1 {
        return Err(WireError::BadChar);
    }
    let c = text.as_str().get_char(0);
    *i = j + dl as usize;
    Ok(c)
}


/// Split a buffer at its first newline byte: the bytes before it and the
/// count consumed including the newline.
pub open spec fn split_at_nl(bs: Seq<u8>) -> Option<(Seq<u8>, int)>
    decreases bs.len(),
{
    if bs.len() == 0 {
        Option::None
    } else if bs[0] == 10 {
        Option::Some((Seq::empty(), 1))
    } else {
        match split_at_nl(bs.drop_first()) {
            Option::None => Option::None,
            Option::Some((pre, used)) => Option::Some((seq![bs[0]] + pre, used + 1)),
        }
    }
}

/// Splitting newline-free bytes followed by a newline yields those bytes.
pub proof fn lemma_split_at_nl_round_trip(nb: Seq<u8>, rest: Seq<u8>)
    requires
        forall|j: int| 0 <= j < nb.len() ==> nb[j] != 10,
    ensures
        split_at_nl(nb + seq![10u8] + rest) == Option::Some((nb, nb.len() + 1 as int)),
    decreases nb.len(),
{
    let bs = nb + seq![10u8] + rest;
    if nb.len() == 0 {
        assert(bs[0] == 10);
        assert(nb =~= Seq::<u8>::empty());
    } else {
        assert(bs[0] == nb[0]);
        assert(bs[0] != 10);
        assert(bs.drop_first() =~= nb.drop_first() + seq![10u8] + rest);
        assert forall|j: int| 0 <= j < nb.drop_first().len() implies #[trigger] nb.drop_first()[j]
            != 10 by {
            assert(nb.drop_first()[j] == nb[j + 1]);
        }
        lemma_split_at_nl_round_trip(nb.drop_first(), rest);
        assert(seq![bs[0]] + nb.drop_first() =~= nb);
    }
}

/// The UTF-8 form of text without newlines holds no newline byte: every
/// multi-byte encoding uses bytes at 0x80 and above.
pub proof fn lemma_no_newline_in_utf8(cs: Seq<char>)
    requires
        forall|j: int| 0 <= j < cs.len() ==> cs[j] != '\n',
    ensures
        forall|j: int| 0 <= j < encode_utf8(cs).len() ==> encode_utf8(cs)[j] != 10,
    decreases cs.len(),
{
    if cs.len() > 0 {
        let c = cs[0];
        let v = c as u32;
        vstd::utf8::char_is_scalar(c);
        let eb = encode_scalar(v);
        assert forall|j: int| 0 <= j < eb.len() implies eb[j] != 10 by {
            if v <= 0x7F {
                assert(v != 10) by {
                    if v == 10 {
                        assert(c == '\n') by {
                            vstd::utf8::char_u32_cast(c, v);
                        }
                    }
                }
                assert((v & 0x7F) as u8 != 10) by (bit_vector)
                    requires
                        v <= 0x7F,
                        v != 10,
                ;
            } else {
                assert((0xC0 | ((v >> 6) & 0x1F) as u8) != 10) by (bit_vector);
                assert((0xE0 | ((v >> 12) & 0x0F) as u8) != 10) by (bit_vector);
                assert((0xF0 | ((v >> 18) & 0x7) as u8) != 10) by (bit_vector);
                assert((0x80 | (v & 0x3F) as u8) != 10) by (bit_vector);
                assert((0x80 | ((v >> 6) & 0x3F) as u8) != 10) by (bit_vector);
                assert((0x80 | ((v >> 12) & 0x3F) as u8) != 10) by (bit_vector);
            }
        }
        assert forall|j: int| 0 <= j < cs.drop_first().len() implies #[trigger] cs.drop_first()[j]
            != '\n' by {
            assert(cs.drop_first()[j] == cs[j + 1]);
        }
        lemma_no_newline_in_utf8(cs.drop_first());
        assert forall|j: int| 0 <= j < encode_utf8(cs).len() implies encode_utf8(cs)[j] != 10 by {
            assert(encode_utf8(cs) == eb + encode_utf8(cs.drop_first()));
            if j < eb.len() {
                assert(encode_utf8(cs)[j] == eb[j]);
            } else {
                assert(encode_utf8(cs)[j] == encode_utf8(cs.drop_first())[j - eb.len()]);
            }
        }
    }
}

/// Read a newline-terminated text field from `buf` at `*i`, advancing
/// `*i` past the newline.
pub fn read_line_field(buf: &Vec<u8>, i: &mut usize) -> (r: Result<String, WireError>)
    requires
        *old(i) <= buf@.len(),
    ensures
        match r {
            Ok(name) => {
                &&& split_at_nl(buf@.skip(*old(i) as int)) matches Some(w) && valid_utf8(w.0)
                    && name@ == decode_utf8(w.0) && *final(i) == *old(i) + w.1
                &&& *final(i) <= buf@.len()
            },
            Err(_) => {
                &&& *final(i) == *old(i)
                &&& (split_at_nl(buf@.skip(*old(i) as int)) matches Some(w) ==> !valid_utf8(
                    w.0,
                ))
            },
        },
{
    let ghost i0 = *i as int;
    let ghost bs = buf@.skip(i0);
    let n = buf.len();
    let mut j: usize = *i;
    while j < n && buf[j] != 10
        invariant
            i0 == *old(i) as int,
            i0 <= j <= n,
            n == buf@.len(),
            bs == buf@.skip(i0),
            forall|m: int| i0 <= m < j ==> buf@[m] != 10,
        decreases n - j,
    {
        j = j + 1;
    }
    proof {
        lemma_split_at_nl_shape(bs, buf@, i0, j as int, n as int);
    }
    if j == n {
        return Err(WireError::Truncated);
    }
    let raw = vstd::slice::slice_to_vec(vstd::slice::slice_subrange(buf.as_slice(), *i, j));
    proof {
        let w = split_at_nl(bs)->0;
        assert(raw@ =~= w.0) by {
            assert(raw@ =~= buf@.subrange(i0, j as int));
        }
    }
    let text = match string_from_utf8(raw) {
        Ok(t) => t,
        Err(e) => {
            return Err(e);
        },
    };
    *i = j + 1;
    Ok(text)
}

/// What the newline scan finds: no newline at all means the split fails,
/// and the first newline splits the buffer there.
proof fn lemma_split_at_nl_shape(bs: Seq<u8>, whole: Seq<u8>, i0: int, j: int, n: int)
    requires
        0 <= i0 <= j <= n,
        whole.len() == n,
        bs == whole.skip(i0),
        forall|m: int| i0 <= m < j ==> whole[m] != 10,
        j < n ==> whole[j] == 10,
    ensures
        j == n ==> split_at_nl(bs) is None,
        j < n ==> (split_at_nl(bs) matches Some(w) && w.0 == whole.subrange(i0, j) && w.1 == j
            - i0 + 1),
    decreases j - i0,
{
    if bs.len() == 0 {
    } else {
        assert(bs[0] == whole[i0]);
        if i0 == j {
            if j < n {
                assert(bs[0] == 10);
                assert(split_at_nl(bs) matches Some(w) && w.0 == Seq::<u8>::empty() && w.1 == 1);
                assert(whole.subrange(i0, j) =~= Seq::<u8>::empty());
            }
        } else {
            assert(bs[0] != 10);
            assert(bs.drop_first() =~= whole.skip(i0 + 1)) by {
                assert forall|m: int| 0 <= m < bs.len() - 1 implies #[trigger] bs.drop_first()[m]
                    == whole.skip(i0 + 1)[m] by {
                    assert(bs.drop_first()[m] == bs[m + 1]);
                    assert(bs[m + 1] == whole[i0 + 1 + m]);
                    assert(whole.skip(i0 + 1)[m] == whole[i0 + 1 + m]);
                }
                assert(bs.drop_first().len() == bs.len() - 1);
                assert(whole.skip(i0 + 1).len() == whole.len() - i0 - 1);
            }
            lemma_split_at_nl_shape(whole.skip(i0 + 1), whole, i0 + 1, j, n);
            if j < n {
                assert(seq![bs[0]] + whole.subrange(i0 + 1, j) =~= whole.subrange(i0, j));
            }
        }
    }
    if bs.len() == 0 && j < n {
        assert(bs.len() == whole.len() - i0);
        assert(false);
    }
}

} // verus!
