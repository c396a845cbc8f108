//! Shared byte-level wire primitives: 64-bit integers in either byte order,
//! length-prefixed byte strings, UTF-8 text, and value tag bytes.
//!
//! Every primitive comes in three parts: a specification serializer over
//! mathematical values, a specification parser that consumes a prefix of a
//! byte sequence and returns the rest, and executable code proved against
//! both. The `lemma_sp_*` lemmas state that each parser inverts its
//! serializer on any input that continues with arbitrary further bytes.

use crate::entry::DecodeError;
use vstd::bytes::{
    lemma_auto_spec_u64_to_from_le_bytes, spec_u64_from_le_bytes, spec_u64_to_le_bytes,
    u64_from_le_bytes, u64_to_le_bytes,
};
use vstd::prelude::*;
use vstd::slice::{slice_index_get, slice_subrange, slice_to_vec};
use vstd::string::StringSliceAdditionalSpecFns;
use vstd::utf8::{
    decode_utf8, encode_utf8, encode_utf8_decode_utf8, encode_utf8_valid_utf8, valid_utf8,
};

verus! {

/// Wire tag of an integer value in the tagged envelopes.
pub const TAG_UINT: u8 = 1;

/// Wire tag of a text value in the tagged envelopes.
pub const TAG_TEXT: u8 = 2;

/// Wire tag of an author-list value in the tagged envelopes.
pub const TAG_PEOPLE: u8 = 3;

// ------------------------------------------------------------------
// Single bytes
// ------------------------------------------------------------------

pub open spec fn sp_u8(b: Seq<u8>) -> Result<(u8, Seq<u8>), DecodeError> {
    if b.len() < 1 {
        Err(DecodeError::Truncated)
    } else {
        Ok((b[0], b.skip(1)))
    }
}

pub proof fn lemma_sp_u8(x: u8, rest: Seq<u8>)
    ensures
        sp_u8(seq![x] + rest) == Ok::<(u8, Seq<u8>), DecodeError>((x, rest)),
{
    assert((seq![x] + rest).skip(1) =~= rest);
}

pub fn write_u8(out: &mut Vec<u8>, x: u8)
    ensures
        final(out)@ == old(out)@ + seq![x],
{
    out.push(x);
    proof {
        assert(out@ =~= old(out)@ + seq![x]);
    }
}

pub fn parse_u8(bytes: &[u8], i: &mut usize) -> (r: Result<u8, DecodeError>)
    requires
        *old(i) <= bytes@.len(),
    ensures
        match r {
            Ok(x) => {
                &&& *final(i) <= bytes@.len()
                &&& sp_u8(bytes@.skip(*old(i) as int)) == Ok::<(u8, Seq<u8>), DecodeError>(
                    (x, bytes@.skip(*final(i) as int)),
                )
            },
            Err(e) => sp_u8(bytes@.skip(*old(i) as int)) == Err::<(u8, Seq<u8>), DecodeError>(e),
        },
{
    if bytes.len() - *i < 1 {
        return Err(DecodeError::Truncated);
    }
    let x = *slice_index_get(bytes, *i);
    *i = *i + 1;
    proof {
        assert(bytes@.skip(*old(i) as int)[0] == bytes@[*old(i) as int]);
        assert(bytes@.skip(*old(i) as int).skip(1) =~= bytes@.skip(*i as int));
    }
    Ok(x)
}

// ------------------------------------------------------------------
// 64-bit integers, little or big endian
// ------------------------------------------------------------------

/// Big-endian bytes of a 64-bit integer.
pub open spec fn spec_u64_to_be_bytes(x: u64) -> Seq<u8> {
    seq![
        ((x >> 56) & 0xff) as u8,
        ((x >> 48) & 0xff) as u8,
        ((x >> 40) & 0xff) as u8,
        ((x >> 32) & 0xff) as u8,
        ((x >> 24) & 0xff) as u8,
        ((x >> 16) & 0xff) as u8,
        ((x >> 8) & 0xff) as u8,
        (x & 0xff) as u8,
    ]
}

/// The 64-bit integer read from eight big-endian bytes.
pub open spec fn spec_u64_from_be_bytes(b: Seq<u8>) -> u64
    recommends
        b.len() == 8,
{
    ((b[0] as u64) << 56) | ((b[1] as u64) << 48) | ((b[2] as u64) << 40) | ((b[3] as u64) << 32)
        | ((b[4] as u64) << 24) | ((b[5] as u64) << 16) | ((b[6] as u64) << 8) | (b[7] as u64)
}

pub proof fn lemma_u64_be_bytes_round_trip(x: u64)
    ensures
        spec_u64_to_be_bytes(x).len() == 8,
        spec_u64_from_be_bytes(spec_u64_to_be_bytes(x)) == x,
{
    assert(((((x >> 56) & 0xff) as u8 as u64) << 56) | ((((x >> 48) & 0xff) as u8 as u64) << 48)
        | ((((x >> 40) & 0xff) as u8 as u64) << 40) | ((((x >> 32) & 0xff) as u8 as u64) << 32) | (
    (((x >> 24) & 0xff) as u8 as u64) << 24) | ((((x >> 16) & 0xff) as u8 as u64) << 16) | ((((x
        >> 8) & 0xff) as u8 as u64) << 8) | ((x & 0xff) as u8 as u64) == x) by (bit_vector);
}

/// Bytes of a 64-bit integer in the chosen byte order.
pub open spec fn ser_u64(be: bool, x: u64) -> Seq<u8> {
    if be {
        spec_u64_to_be_bytes(x)
    } else {
        spec_u64_to_le_bytes(x)
    }
}

pub open spec fn sp_u64(be: bool, b: Seq<u8>) -> Result<(u64, Seq<u8>), DecodeError> {
    if b.len() < 8 {
        Err(DecodeError::Truncated)
    } else {
        Ok(
            (
                if be {
                    spec_u64_from_be_bytes(b.take(8))
                } else {
                    spec_u64_from_le_bytes(b.take(8))
                },
                b.skip(8),
            ),
        )
    }
}

pub proof fn lemma_sp_u64(be: bool, x: u64, rest: Seq<u8>)
    ensures
        ser_u64(be, x).len() == 8,
        sp_u64(be, ser_u64(be, x) + rest) == Ok::<(u64, Seq<u8>), DecodeError>((x, rest)),
{
    lemma_auto_spec_u64_to_from_le_bytes();
    lemma_u64_be_bytes_round_trip(x);
    assert((ser_u64(be, x) + rest).take(8) =~= ser_u64(be, x));
    assert((ser_u64(be, x) + rest).skip(8) =~= rest);
}

pub fn write_u64(out: &mut Vec<u8>, be: bool, x: u64)
    ensures
        final(out)@ == old(out)@ + ser_u64(be, x),
{
    if be {
        out.push(((x >> 56) & 0xff) as u8);
        out.push(((x >> 48) & 0xff) as u8);
        out.push(((x >> 40) & 0xff) as u8);
        out.push(((x >> 32) & 0xff) as u8);
        out.push(((x >> 24) & 0xff) as u8);
        out.push(((x >> 16) & 0xff) as u8);
        out.push(((x >> 8) & 0xff) as u8);
        out.push((x & 0xff) as u8);
        proof {
            assert(out@ =~= old(out)@ + spec_u64_to_be_bytes(x));
        }
    } else {
        let mut bs = u64_to_le_bytes(x);
        out.append(&mut bs);
    }
}

pub fn parse_u64(be: bool, bytes: &[u8], i: &mut usize) -> (r: Result<u64, DecodeError>)
    requires
        *old(i) <= bytes@.len(),
    ensures
        match r {
            Ok(x) => {
                &&& *final(i) <= bytes@.len()
                &&& sp_u64(be, bytes@.skip(*old(i) as int)) == Ok::<(u64, Seq<u8>), DecodeError>(
                    (x, bytes@.skip(*final(i) as int)),
                )
            },
            Err(e) => sp_u64(be, bytes@.skip(*old(i) as int)) == Err::<(u64, Seq<u8>), DecodeError>(
                e,
            ),
        },
{
    if bytes.len() - *i < 8 {
        return Err(DecodeError::Truncated);
    }
    let ghost start = *i as int;
    let x: u64;
    if be {
        let a0 = *slice_index_get(bytes, *i) as u64;
        let a1 = *slice_index_get(bytes, *i + 1) as u64;
        let a2 = *slice_index_get(bytes, *i + 2) as u64;
        let a3 = *slice_index_get(bytes, *i + 3) as u64;
        let a4 = *slice_index_get(bytes, *i + 4) as u64;
        let a5 = *slice_index_get(bytes, *i + 5) as u64;
        let a6 = *slice_index_get(bytes, *i + 6) as u64;
        let a7 = *slice_index_get(bytes, *i + 7) as u64;
        x = (a0 << 56) | (a1 << 48) | (a2 << 40) | (a3 << 32) | (a4 << 24) | (a5 << 16) | (a6
            << 8) | a7;
        proof {
            let w = bytes@.skip(start).take(8);
            assert(forall|k: int| 0 <= k < 8 ==> w[k] == bytes@[start + k]);
            assert(x == spec_u64_from_be_bytes(w));
        }
    } else {
        let sub = slice_subrange(bytes, *i, *i + 8);
        x = u64_from_le_bytes(sub);
        proof {
            assert(bytes@.skip(start).take(8) =~= bytes@.subrange(start, start + 8));
        }
    }
    *i = *i + 8;
    proof {
        assert(bytes@.skip(start).skip(8) =~= bytes@.skip(*i as int));
    }
    Ok(x)
}

// ------------------------------------------------------------------
// Length-prefixed byte strings
// ------------------------------------------------------------------

/// A byte string on the wire: its length, then its bytes.
pub open spec fn ser_blob(be: bool, data: Seq<u8>) -> Seq<u8> {
    ser_u64(be, data.len() as u64) + data
}

pub open spec fn sp_blob(be: bool, b: Seq<u8>) -> Result<(Seq<u8>, Seq<u8>), DecodeError> {
    match sp_u64(be, b) {
        Ok((n, rest)) => if n <= rest.len() {
            Ok((rest.take(n as int), rest.skip(n as int)))
        } else {
            Err(DecodeError::Truncated)
        },
        Err(e) => Err(e),
    }
}

pub proof fn lemma_sp_blob(be: bool, data: Seq<u8>, rest: Seq<u8>)
    requires
        data.len() <= u64::MAX,
    ensures
        ser_blob(be, data).len() == 8 + data.len(),
        sp_blob(be, ser_blob(be, data) + rest) == Ok::<(Seq<u8>, Seq<u8>), DecodeError>(
            (data, rest),
        ),
{
    lemma_sp_u64(be, data.len() as u64, data + rest);
    assert(ser_blob(be, data) + rest =~= ser_u64(be, data.len() as u64) + (data + rest));
    assert((data + rest).take(data.len() as int) =~= data);
    assert((data + rest).skip(data.len() as int) =~= rest);
}

pub fn write_blob(out: &mut Vec<u8>, be: bool, data: &[u8])
    ensures
        final(out)@ == old(out)@ + ser_blob(be, data@),
{
    write_u64(out, be, data.len() as u64);
    out.extend_from_slice(data);
}

pub fn parse_blob(be: bool, bytes: &[u8], i: &mut usize) -> (r: Result<Vec<u8>, DecodeError>)
    requires
        *old(i) <= bytes@.len(),
    ensures
        match r {
            Ok(v) => {
                &&& *final(i) <= bytes@.len()
                &&& sp_blob(be, bytes@.skip(*old(i) as int)) == Ok::<
                    (Seq<u8>, Seq<u8>),
                    DecodeError,
                >((v@, bytes@.skip(*final(i) as int)))
            },
            Err(e) => sp_blob(be, bytes@.skip(*old(i) as int)) == Err::<
                (Seq<u8>, Seq<u8>),
                DecodeError,
            >(e),
        },
{
    let ghost start = *i as int;
    let n = match parse_u64(be, bytes, i) {
        Ok(x) => x,
        Err(e) => {
            return Err(e);
        },
    };
    let rem = bytes.len() - *i;
    if n > rem as u64 {
        return Err(DecodeError::Truncated);
    }
    let n_us = n as usize;
    let sub = slice_subrange(bytes, *i, *i + n_us);
    let v = slice_to_vec(sub);
    let ghost mid = *i as int;
    *i = *i + n_us;
    proof {
        assert(bytes@.skip(mid).take(n as int) =~= bytes@.subrange(mid, mid + n as int));
        assert(bytes@.skip(mid).skip(n as int) =~= bytes@.skip(*i as int));
    }
    Ok(v)
}

// ------------------------------------------------------------------
// UTF-8 text
// ------------------------------------------------------------------

/// Text on the wire: the length of its UTF-8 encoding, then those bytes.
/// Opaque: callers reason through [`lemma_sp_str`] and the parser and
/// writer contracts rather than through the UTF-8 encoding itself.
#[verifier::opaque]
pub open spec fn ser_str(be: bool, s: Seq<char>) -> Seq<u8> {
    ser_blob(be, encode_utf8(s))
}

#[verifier::opaque]
pub open spec fn sp_str(be: bool, b: Seq<u8>) -> Result<(Seq<char>, Seq<u8>), DecodeError> {
    match sp_blob(be, b) {
        Ok((data, rest)) => if valid_utf8(data) {
            Ok((decode_utf8(data), rest))
        } else {
            Err(DecodeError::Malformed)
        },
        Err(e) => Err(e),
    }
}

pub proof fn lemma_sp_str(be: bool, s: Seq<char>, rest: Seq<u8>)
    requires
        encode_utf8(s).len() <= u64::MAX,
    ensures
        ser_str(be, s).len() == 8 + encode_utf8(s).len(),
        sp_str(be, ser_str(be, s) + rest) == Ok::<(Seq<char>, Seq<u8>), DecodeError>((s, rest)),
{
    reveal(ser_str);
    reveal(sp_str);
    lemma_sp_blob(be, encode_utf8(s), rest);
    encode_utf8_valid_utf8(s);
    encode_utf8_decode_utf8(s);
}

pub fn write_str(out: &mut Vec<u8>, be: bool, s: &str)
    ensures
        final(out)@ == old(out)@ + ser_str(be, s@),
{
    proof {
        reveal(ser_str);
    }
    write_blob(out, be, s.as_bytes());
}

/// Relies on `String::from_utf8`: it returns the decoded string exactly when
/// the bytes are valid UTF-8, and rejects everything else.
#[verifier::external_body]
fn string_from_utf8(v: Vec<u8>) -> (r: Option<String>)
    ensures
        match r {
            Some(s) => valid_utf8(v@) && encode_utf8(s@) == v@,
            None => !valid_utf8(v@),
        },
{
    match String::from_utf8(v) {
        Ok(s) => Some(s),
        Err(_) => None,
    }
}

pub fn parse_str(be: bool, bytes: &[u8], i: &mut usize) -> (r: Result<String, DecodeError>)
    requires
        *old(i) <= bytes@.len(),
    ensures
        match r {
            Ok(s) => {
                &&& *final(i) <= bytes@.len()
                &&& sp_str(be, bytes@.skip(*old(i) as int)) == Ok::<
                    (Seq<char>, Seq<u8>),
                    DecodeError,
                >((s@, bytes@.skip(*final(i) as int)))
            },
            Err(e) => sp_str(be, bytes@.skip(*old(i) as int)) == Err::<
                (Seq<char>, Seq<u8>),
                DecodeError,
            >(e),
        },
{
    proof {
        reveal(sp_str);
    }
    let v = match parse_blob(be, bytes, i) {
        Ok(v) => v,
        Err(e) => {
            return Err(e);
        },
    };
    match string_from_utf8(v) {
        Some(s) => {
            proof {
                encode_utf8_decode_utf8(s@);
            }
            Ok(s)
        },
        None => Err(DecodeError::Malformed),
    }
}

} // verus!
