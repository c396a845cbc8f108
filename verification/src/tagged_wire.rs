//! Tagged scalar values shared by the self-describing envelopes: each value
//! carries a leading tag byte naming its kind, so a reader can tell what it
//! is looking at before committing to a layout.

use crate::entry::DecodeError;
use crate::wire::{
    parse_str, parse_u64, parse_u8, ser_str, ser_u64, sp_str, sp_u64, sp_u8, write_str,
    write_u64, write_u8, TAG_TEXT, TAG_UINT,
};
use vstd::prelude::*;

verus! {

pub open spec fn ser_tagged_u64(x: u64) -> Seq<u8> {
    seq![TAG_UINT] + ser_u64(false, x)
}

pub open spec fn ser_tagged_str(s: Seq<char>) -> Seq<u8> {
    seq![TAG_TEXT] + ser_str(false, s)
}

pub open spec fn sp_tagged_u64(b: Seq<u8>) -> Result<(u64, Seq<u8>), DecodeError> {
    match sp_u8(b) {
        Ok((t, r)) => if t == TAG_UINT {
            sp_u64(false, r)
        } else {
            Err(DecodeError::Malformed)
        },
        Err(e) => Err(e),
    }
}

pub open spec fn sp_tagged_str(b: Seq<u8>) -> Result<(Seq<char>, Seq<u8>), DecodeError> {
    match sp_u8(b) {
        Ok((t, r)) => if t == TAG_TEXT {
            sp_str(false, r)
        } else {
            Err(DecodeError::Malformed)
        },
        Err(e) => Err(e),
    }
}

pub proof fn lemma_sp_tagged_u64(x: u64, rest: Seq<u8>)
    ensures
        ser_tagged_u64(x).len() == 9,
        sp_tagged_u64(ser_tagged_u64(x) + rest) == Ok::<(u64, Seq<u8>), DecodeError>((x, rest)),
{
    crate::wire::lemma_sp_u8(TAG_UINT, ser_u64(false, x) + rest);
    crate::wire::lemma_sp_u64(false, x, rest);
    assert(ser_tagged_u64(x) + rest =~= seq![TAG_UINT] + (ser_u64(false, x) + rest));
}

pub proof fn lemma_sp_tagged_str(s: Seq<char>, rest: Seq<u8>)
    requires
        vstd::utf8::encode_utf8(s).len() <= u64::MAX,
    ensures
        ser_tagged_str(s).len() == 9 + vstd::utf8::encode_utf8(s).len(),
        sp_tagged_str(ser_tagged_str(s) + rest) == Ok::<(Seq<char>, Seq<u8>), DecodeError>(
            (s, rest),
        ),
{
    crate::wire::lemma_sp_u8(TAG_TEXT, ser_str(false, s) + rest);
    crate::wire::lemma_sp_str(false, s, rest);
    crate::fixed_wire::lemma_ser_str_len(false, s);
    assert(ser_tagged_str(s) + rest =~= seq![TAG_TEXT] + (ser_str(false, s) + rest));
}

pub fn write_tagged_u64(out: &mut Vec<u8>, x: u64)
    ensures
        final(out)@ == old(out)@ + ser_tagged_u64(x),
{
    write_u8(out, TAG_UINT);
    write_u64(out, false, x);
    proof {
        assert(out@ =~= old(out)@ + ser_tagged_u64(x));
    }
}

pub fn write_tagged_str(out: &mut Vec<u8>, s: &str)
    ensures
        final(out)@ == old(out)@ + ser_tagged_str(s@),
{
    write_u8(out, TAG_TEXT);
    write_str(out, false, s);
    proof {
        assert(out@ =~= old(out)@ + ser_tagged_str(s@));
    }
}

pub fn parse_tagged_u64(bytes: &[u8], i: &mut usize) -> (r: Result<u64, DecodeError>)
    requires
        *old(i) <= bytes@.len(),
    ensures
        match r {
            Ok(x) => {
                &&& *final(i) <= bytes@.len()
                &&& sp_tagged_u64(bytes@.skip(*old(i) as int)) == Ok::<
                    (u64, Seq<u8>),
                    DecodeError,
                >((x, bytes@.skip(*final(i) as int)))
            },
            Err(e) => sp_tagged_u64(bytes@.skip(*old(i) as int)) == Err::<
                (u64, Seq<u8>),
                DecodeError,
            >(e),
        },
{
    let t = match parse_u8(bytes, i) {
        Ok(t) => t,
        Err(e) => {
            return Err(e);
        },
    };
    if t != TAG_UINT {
        return Err(DecodeError::Malformed);
    }
    parse_u64(false, bytes, i)
}

pub fn parse_tagged_str(bytes: &[u8], i: &mut usize) -> (r: Result<String, DecodeError>)
    requires
        *old(i) <= bytes@.len(),
    ensures
        match r {
            Ok(s) => {
                &&& *final(i) <= bytes@.len()
                &&& sp_tagged_str(bytes@.skip(*old(i) as int)) == Ok::<
                    (Seq<char>, Seq<u8>),
                    DecodeError,
                >((s@, bytes@.skip(*final(i) as int)))
            },
            Err(e) => sp_tagged_str(bytes@.skip(*old(i) as int)) == Err::<
                (Seq<char>, Seq<u8>),
                DecodeError,
            >(e),
        },
{
    let t = match parse_u8(bytes, i) {
        Ok(t) => t,
        Err(e) => {
            return Err(e);
        },
    };
    if t != TAG_TEXT {
        return Err(DecodeError::Malformed);
    }
    parse_str(false, bytes, i)
}

} // verus!
