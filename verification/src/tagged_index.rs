//! Backend binding: the index-based protocol over a self-describing tagged
//! envelope. A record opens with its declared field count, and every value
//! carries a tag byte naming its kind; a count other than the declared one
//! is an arity error, and an unexpected tag is a malformed-value error.

use crate::entry::{DecodeError, Entry};
use crate::fixed_wire::{
    document_bounded, lemma_people_bounded_from_forall, lemma_ser_str_len, people_bounded,
    person_bounded,
};
use crate::index_codec::{
    document_build_indexed, document_emit_indexed, person_build_indexed, person_emit_indexed,
};
use crate::tagged_wire::{
    lemma_sp_tagged_str, lemma_sp_tagged_u64, parse_tagged_str, parse_tagged_u64, ser_tagged_str,
    ser_tagged_u64, sp_tagged_str, sp_tagged_u64, write_tagged_str, write_tagged_u64,
};
use crate::types::{people_view, Document, DocumentV, Person, PersonV};
use crate::wire::{parse_u64, parse_u8, ser_u64, sp_u64, sp_u8, write_u64, write_u8, TAG_PEOPLE};
use vstd::pervasive::unreached;
use vstd::prelude::*;

verus! {

// ------------------------------------------------------------------
// Wire specification
// ------------------------------------------------------------------

pub open spec fn ser_person(p: PersonV) -> Seq<u8> {
    seq![3u8] + ser_tagged_u64(p.id) + ser_tagged_str(p.name) + ser_tagged_str(p.email)
}

pub open spec fn ser_people_from(s: Seq<PersonV>) -> Seq<u8>
    decreases s.len(),
{
    if s.len() == 0 {
        Seq::empty()
    } else {
        ser_person(s[0]) + ser_people_from(s.drop_first())
    }
}

pub open spec fn ser_people(s: Seq<PersonV>) -> Seq<u8> {
    seq![TAG_PEOPLE] + ser_u64(false, s.len() as u64) + ser_people_from(s)
}

pub open spec fn ser_document(d: DocumentV) -> Seq<u8> {
    seq![4u8] + ser_tagged_u64(d.id) + ser_tagged_str(d.name) + ser_people(d.authors)
        + ser_tagged_str(d.content)
}

pub open spec fn sp_person(b: Seq<u8>) -> Result<(PersonV, Seq<u8>), DecodeError> {
    match sp_u8(b) {
        Ok((c, r0)) => if c != 3 {
            Err(DecodeError::WrongFieldCount)
        } else {
            match sp_tagged_u64(r0) {
                Ok((id, r1)) => match sp_tagged_str(r1) {
                    Ok((name, r2)) => match sp_tagged_str(r2) {
                        Ok((email, r3)) => Ok((PersonV { id, name, email }, r3)),
                        Err(e) => Err(e),
                    },
                    Err(e) => Err(e),
                },
                Err(e) => Err(e),
            }
        },
        Err(e) => Err(e),
    }
}

pub open spec fn sp_people_from(b: Seq<u8>, n: nat) -> Result<(Seq<PersonV>, Seq<u8>), DecodeError>
    decreases n,
{
    if n == 0 {
        Ok((Seq::empty(), b))
    } else {
        match sp_person(b) {
            Ok((p, r1)) => match sp_people_from(r1, (n - 1) as nat) {
                Ok((ps, r2)) => Ok((seq![p] + ps, r2)),
                Err(e) => Err(e),
            },
            Err(e) => Err(e),
        }
    }
}

pub open spec fn sp_people(b: Seq<u8>) -> Result<(Seq<PersonV>, Seq<u8>), DecodeError> {
    match sp_u8(b) {
        Ok((t, r0)) => if t != TAG_PEOPLE {
            Err(DecodeError::Malformed)
        } else {
            match sp_u64(false, r0) {
                Ok((n, r1)) => sp_people_from(r1, n as nat),
                Err(e) => Err(e),
            }
        },
        Err(e) => Err(e),
    }
}

pub open spec fn sp_document(b: Seq<u8>) -> Result<(DocumentV, Seq<u8>), DecodeError> {
    match sp_u8(b) {
        Ok((c, r0)) => if c != 4 {
            Err(DecodeError::WrongFieldCount)
        } else {
            match sp_tagged_u64(r0) {
                Ok((id, r1)) => match sp_tagged_str(r1) {
                    Ok((name, r2)) => match sp_people(r2) {
                        Ok((authors, r3)) => match sp_tagged_str(r3) {
                            Ok((content, r4)) => Ok(
                                (DocumentV { id, name, authors, content }, r4),
                            ),
                            Err(e) => Err(e),
                        },
                        Err(e) => Err(e),
                    },
                    Err(e) => Err(e),
                },
                Err(e) => Err(e),
            }
        },
        Err(e) => Err(e),
    }
}

/// Whole-buffer decode: one document, with nothing allowed to remain.
pub open spec fn spec_decode(b: Seq<u8>) -> Result<DocumentV, DecodeError> {
    match sp_document(b) {
        Ok((d, rest)) => if rest.len() == 0 {
            Ok(d)
        } else {
            Err(DecodeError::TrailingInput)
        },
        Err(e) => Err(e),
    }
}

pub open spec fn spec_encode(d: DocumentV) -> Seq<u8> {
    ser_document(d)
}

// ------------------------------------------------------------------
// Round-trip lemmas
// ------------------------------------------------------------------

pub proof fn lemma_sp_person(p: PersonV, rest: Seq<u8>)
    requires
        person_bounded(p),
    ensures
        sp_person(ser_person(p) + rest) == Ok::<(PersonV, Seq<u8>), DecodeError>((p, rest)),
{
    let t2 = ser_tagged_str(p.email) + rest;
    let t1 = ser_tagged_str(p.name) + t2;
    let t0 = ser_tagged_u64(p.id) + t1;
    assert(ser_person(p) + rest =~= seq![3u8] + t0);
    crate::wire::lemma_sp_u8(3u8, t0);
    lemma_sp_tagged_u64(p.id, t1);
    lemma_sp_tagged_str(p.name, t2);
    lemma_sp_tagged_str(p.email, rest);
    assert(sp_person(ser_person(p) + rest)->Ok_0.0 =~= p);
}

proof fn lemma_sp_people_from_step(p0: PersonV, ps: Seq<PersonV>, rest: Seq<u8>)
    requires
        person_bounded(p0),
        sp_people_from(ser_people_from(ps) + rest, ps.len() as nat) == Ok::<
            (Seq<PersonV>, Seq<u8>),
            DecodeError,
        >((ps, rest)),
    ensures
        sp_people_from(ser_people_from(seq![p0] + ps) + rest, (seq![p0] + ps).len() as nat)
            == Ok::<(Seq<PersonV>, Seq<u8>), DecodeError>((seq![p0] + ps, rest)),
{
    let s = seq![p0] + ps;
    assert(s.len() == ps.len() + 1);
    assert(s[0] == p0);
    assert(s.drop_first() =~= ps);
    assert(ser_people_from(s) == ser_person(p0) + ser_people_from(ps));
    vstd::seq_lib::lemma_concat_associative(ser_person(p0), ser_people_from(ps), rest);
    assert(ser_people_from(s) + rest == ser_person(p0) + (ser_people_from(ps) + rest));
    lemma_sp_person(p0, ser_people_from(ps) + rest);
    assert(seq![s[0]] + s.drop_first() =~= s);
}

pub proof fn lemma_sp_people_from(s: Seq<PersonV>, rest: Seq<u8>)
    requires
        people_bounded(s),
    ensures
        sp_people_from(ser_people_from(s) + rest, s.len() as nat) == Ok::<
            (Seq<PersonV>, Seq<u8>),
            DecodeError,
        >((s, rest)),
    decreases s.len(),
{
    if s.len() == 0 {
        assert(s =~= Seq::<PersonV>::empty());
        assert(ser_people_from(s) + rest =~= rest);
    } else {
        lemma_sp_people_from(s.drop_first(), rest);
        lemma_sp_people_from_step(s[0], s.drop_first(), rest);
        let s2 = seq![s[0]] + s.drop_first();
        assert(s2 =~= s);
        assert(sp_people_from(ser_people_from(s) + rest, s.len() as nat) == Ok::<
            (Seq<PersonV>, Seq<u8>),
            DecodeError,
        >((s, rest)));
    }
}

pub proof fn lemma_sp_people(s: Seq<PersonV>, rest: Seq<u8>)
    requires
        s.len() <= u64::MAX,
        forall|j: int| 0 <= j < s.len() ==> person_bounded(#[trigger] s[j]),
    ensures
        sp_people(ser_people(s) + rest) == Ok::<(Seq<PersonV>, Seq<u8>), DecodeError>((s, rest)),
{
    let t1 = ser_people_from(s) + rest;
    let t0 = ser_u64(false, s.len() as u64) + t1;
    assert(ser_people(s) + rest =~= seq![TAG_PEOPLE] + t0);
    crate::wire::lemma_sp_u8(TAG_PEOPLE, t0);
    crate::wire::lemma_sp_u64(false, s.len() as u64, t1);
    lemma_people_bounded_from_forall(s);
    lemma_sp_people_from(s, rest);
}

pub proof fn lemma_sp_document(d: DocumentV, rest: Seq<u8>)
    requires
        document_bounded(d),
    ensures
        sp_document(ser_document(d) + rest) == Ok::<(DocumentV, Seq<u8>), DecodeError>((d, rest)),
{
    let t3 = ser_tagged_str(d.content) + rest;
    let t2 = ser_people(d.authors) + t3;
    let t1 = ser_tagged_str(d.name) + t2;
    let t0 = ser_tagged_u64(d.id) + t1;
    assert(ser_document(d) + rest =~= seq![4u8] + t0);
    crate::wire::lemma_sp_u8(4u8, t0);
    lemma_sp_tagged_u64(d.id, t1);
    lemma_sp_tagged_str(d.name, t2);
    lemma_sp_people(d.authors, t3);
    lemma_sp_tagged_str(d.content, rest);
    assert(sp_document(ser_document(d) + rest)->Ok_0.0 =~= d);
}

/// Round trip: decoding this backend's encoding of any representable
/// document yields exactly that document.
pub proof fn lemma_round_trip(d: DocumentV)
    requires
        document_bounded(d),
    ensures
        spec_decode(spec_encode(d)) == Ok::<DocumentV, DecodeError>(d),
{
    lemma_sp_document(d, Seq::empty());
    assert(ser_document(d) + Seq::<u8>::empty() =~= ser_document(d));
}

/// A declared field count other than the record's own is fatal before any
/// field is read.
pub proof fn lemma_wrong_count_fatal(c: u8, rest: Seq<u8>)
    requires
        c != 4,
    ensures
        spec_decode(seq![c] + rest) == Err::<DocumentV, DecodeError>(
            DecodeError::WrongFieldCount,
        ),
{
    crate::wire::lemma_sp_u8(c, rest);
}

/// Trailing input is fatal in this backend too.
pub proof fn lemma_trailing_input(d: DocumentV, extra: Seq<u8>)
    requires
        document_bounded(d),
        extra.len() > 0,
    ensures
        spec_decode(ser_document(d) + extra) == Err::<DocumentV, DecodeError>(
            DecodeError::TrailingInput,
        ),
{
    lemma_sp_document(d, extra);
}

/// Encoded size grows monotonically with the content payload.
pub proof fn lemma_size_monotone(a: DocumentV, b: DocumentV)
    requires
        a.id == b.id,
        a.name == b.name,
        a.authors == b.authors,
        vstd::utf8::encode_utf8(a.content).len() <= vstd::utf8::encode_utf8(b.content).len(),
    ensures
        ser_document(a).len() <= ser_document(b).len(),
{
    lemma_ser_str_len(false, a.content);
    lemma_ser_str_len(false, b.content);
}

// ------------------------------------------------------------------
// Executable encode
// ------------------------------------------------------------------

fn write_person(out: &mut Vec<u8>, p: &Person)
    ensures
        final(out)@ == old(out)@ + ser_person(p@),
{
    let mut fields = person_emit_indexed(p).1;
    write_u8(out, 3);
    let e2 = fields.pop().unwrap();
    let e1 = fields.pop().unwrap();
    let e0 = fields.pop().unwrap();
    match (e0.1, e1.1, e2.1) {
        (Entry::Uint(id), Entry::Text(name), Entry::Text(email)) => {
            write_tagged_u64(out, id);
            write_tagged_str(out, name.as_str());
            write_tagged_str(out, email.as_str());
            proof {
                assert(out@ =~= old(out)@ + ser_person(p@));
            }
        },
        _ => {
            proof {
                assert(false);
            }
        },
    }
}

proof fn lemma_ser_people_from_snoc(s: Seq<PersonV>, j: int)
    requires
        0 <= j < s.len(),
    ensures
        ser_people_from(s.take(j + 1)) == ser_people_from(s.take(j)) + ser_person(s[j]),
    decreases j,
{
    if j == 0 {
        assert(s.take(1) =~= seq![s[0]]);
        assert(seq![s[0]].drop_first() =~= Seq::<PersonV>::empty());
        assert(ser_people_from(Seq::<PersonV>::empty()) == Seq::<u8>::empty());
        assert(seq![s[0]][0] == s[0]);
        assert(ser_people_from(seq![s[0]]) == ser_person(s[0]) + Seq::<u8>::empty());
        assert(ser_person(s[0]) + Seq::<u8>::empty() =~= ser_person(s[0]));
        assert(s.take(0) =~= Seq::<PersonV>::empty());
    } else {
        let t = s.drop_first();
        lemma_ser_people_from_snoc(t, j - 1);
        assert(s.take(j + 1).len() == j + 1);
        assert(s.take(j).len() == j);
        assert(s.take(j + 1).drop_first() =~= t.take(j));
        assert(s.take(j).drop_first() =~= t.take(j - 1));
        assert(ser_people_from(s.take(j + 1)) == ser_person(s.take(j + 1)[0]) + ser_people_from(
            s.take(j + 1).drop_first(),
        ));
        assert(ser_people_from(s.take(j)) == ser_person(s.take(j)[0]) + ser_people_from(
            s.take(j).drop_first(),
        ));
        assert(t[j - 1] == s[j]);
        assert(ser_people_from(s.take(j + 1)) == ser_person(s[0]) + (ser_people_from(
            t.take(j - 1),
        ) + ser_person(s[j])));
        assert(ser_person(s[0]) + (ser_people_from(t.take(j - 1)) + ser_person(s[j])) =~= (
        ser_person(s[0]) + ser_people_from(t.take(j - 1))) + ser_person(s[j]));
    }
}

fn write_people(out: &mut Vec<u8>, v: &Vec<Person>)
    ensures
        final(out)@ == old(out)@ + ser_people(people_view(v@)),
{
    let ghost all = people_view(v@);
    write_u8(out, TAG_PEOPLE);
    write_u64(out, false, v.len() as u64);
    let mut j: usize = 0;
    proof {
        assert(all.take(0) =~= Seq::<PersonV>::empty());
    }
    while j < v.len()
        invariant
            j <= v@.len(),
            all == people_view(v@),
            out@ == old(out)@ + seq![TAG_PEOPLE] + ser_u64(false, v@.len() as u64)
                + ser_people_from(all.take(j as int)),
        decreases v@.len() - j,
    {
        write_person(out, &v[j]);
        proof {
            lemma_ser_people_from_snoc(all, j as int);
            assert(all[j as int] == v@[j as int]@);
        }
        j = j + 1;
    }
    proof {
        assert(all.take(v@.len() as int) =~= all);
        assert(old(out)@ + seq![TAG_PEOPLE] + ser_u64(false, v@.len() as u64) + ser_people_from(
            all,
        ) =~= old(out)@ + ser_people(all));
    }
}

fn write_document(out: &mut Vec<u8>, d: &Document)
    ensures
        final(out)@ == old(out)@ + ser_document(d@),
{
    let mut fields = document_emit_indexed(d).1;
    write_u8(out, 4);
    let e3 = fields.pop().unwrap();
    let e2 = fields.pop().unwrap();
    let e1 = fields.pop().unwrap();
    let e0 = fields.pop().unwrap();
    match (e0.1, e1.1, e2.1, e3.1) {
        (Entry::Uint(id), Entry::Text(name), Entry::People(authors), Entry::Text(content)) => {
            write_tagged_u64(out, id);
            write_tagged_str(out, name.as_str());
            write_people(out, &authors);
            write_tagged_str(out, content.as_str());
            proof {
                assert(out@ =~= old(out)@ + ser_document(d@));
            }
        },
        _ => {
            proof {
                assert(false);
            }
        },
    }
}

/// Encode a document through the index-based protocol into the tagged
/// envelope.
pub fn encode(d: &Document) -> (r: Vec<u8>)
    ensures
        r@ == spec_encode(d@),
{
    let mut out: Vec<u8> = Vec::new();
    write_document(&mut out, d);
    proof {
        assert(Seq::<u8>::empty() + ser_document(d@) =~= ser_document(d@));
    }
    out
}

// ------------------------------------------------------------------
// Executable decode
// ------------------------------------------------------------------

fn parse_person(bytes: &[u8], i: &mut usize) -> (r: Result<Person, DecodeError>)
    requires
        *old(i) <= bytes@.len(),
    ensures
        match r {
            Ok(p) => {
                &&& *final(i) <= bytes@.len()
                &&& sp_person(bytes@.skip(*old(i) as int)) == Ok::<
                    (PersonV, Seq<u8>),
                    DecodeError,
                >((p@, bytes@.skip(*final(i) as int)))
            },
            Err(e) => sp_person(bytes@.skip(*old(i) as int)) == Err::<
                (PersonV, Seq<u8>),
                DecodeError,
            >(e),
        },
{
    let c = match parse_u8(bytes, i) {
        Ok(c) => c,
        Err(e) => {
            return Err(e);
        },
    };
    if c != 3 {
        return Err(DecodeError::WrongFieldCount);
    }
    let id = match parse_tagged_u64(bytes, i) {
        Ok(x) => x,
        Err(e) => {
            return Err(e);
        },
    };
    let name = match parse_tagged_str(bytes, i) {
        Ok(x) => x,
        Err(e) => {
            return Err(e);
        },
    };
    let email = match parse_tagged_str(bytes, i) {
        Ok(x) => x,
        Err(e) => {
            return Err(e);
        },
    };
    let entries = vec![Entry::Uint(id), Entry::Text(name), Entry::Text(email)];
    match person_build_indexed(entries) {
        Ok(p) => {
            proof {
                assert(sp_person(bytes@.skip(*old(i) as int))->Ok_0.0 =~= p@);
            }
            Ok(p)
        },
        Err(_) => {
            proof {
                assert(false);
            }
            unreached()
        },
    }
}

#[verifier::rlimit(80)]
fn parse_people(bytes: &[u8], i: &mut usize) -> (r: Result<Vec<Person>, DecodeError>)
    requires
        *old(i) <= bytes@.len(),
    ensures
        match r {
            Ok(v) => {
                &&& *final(i) <= bytes@.len()
                &&& sp_people(bytes@.skip(*old(i) as int)) == Ok::<
                    (Seq<PersonV>, Seq<u8>),
                    DecodeError,
                >((people_view(v@), bytes@.skip(*final(i) as int)))
            },
            Err(e) => sp_people(bytes@.skip(*old(i) as int)) == Err::<
                (Seq<PersonV>, Seq<u8>),
                DecodeError,
            >(e),
        },
{
    let t = match parse_u8(bytes, i) {
        Ok(t) => t,
        Err(e) => {
            return Err(e);
        },
    };
    if t != TAG_PEOPLE {
        return Err(DecodeError::Malformed);
    }
    let n = match parse_u64(false, bytes, i) {
        Ok(x) => x,
        Err(e) => {
            return Err(e);
        },
    };
    let ghost start = *i as int;
    let mut v: Vec<Person> = Vec::new();
    let mut j: u64 = 0;
    proof {
        assert(people_view(v@) =~= Seq::<PersonV>::empty());
        let x = sp_people_from(bytes@.skip(start), n as nat);
        if x is Ok {
            assert(people_view(v@) + x->Ok_0.0 =~= x->Ok_0.0);
        }
    }
    while j < n
        invariant
            j <= n,
            *i <= bytes@.len(),
            sp_people(bytes@.skip(*old(i) as int)) == sp_people_from(bytes@.skip(start), n as nat),
            sp_people_from(bytes@.skip(start), n as nat) == (match sp_people_from(
                bytes@.skip(*i as int),
                (n - j) as nat,
            ) {
                Ok((ps, r)) => Ok::<(Seq<PersonV>, Seq<u8>), DecodeError>(
                    (people_view(v@) + ps, r),
                ),
                Err(e) => Err::<(Seq<PersonV>, Seq<u8>), DecodeError>(e),
            }),
        decreases n - j,
    {
        let ghost i0 = *i as int;
        let ghost v0 = people_view(v@);
        let p = match parse_person(bytes, i) {
            Ok(p) => p,
            Err(e) => {
                proof {
                    assert(sp_people_from(bytes@.skip(i0), (n - j) as nat) == Err::<
                        (Seq<PersonV>, Seq<u8>),
                        DecodeError,
                    >(e));
                }
                return Err(e);
            },
        };
        v.push(p);
        proof {
            assert(people_view(v@) =~= v0 + seq![p@]);
            let x = sp_people_from(bytes@.skip(*i as int), (n - (j + 1)) as nat);
            if x is Ok {
                assert(v0 + (seq![p@] + x->Ok_0.0) =~= (v0 + seq![p@]) + x->Ok_0.0);
            }
        }
        j = j + 1;
    }
    proof {
        assert(sp_people_from(bytes@.skip(*i as int), (n - j) as nat) == Ok::<
            (Seq<PersonV>, Seq<u8>),
            DecodeError,
        >((Seq::<PersonV>::empty(), bytes@.skip(*i as int))));
        assert(people_view(v@) + Seq::<PersonV>::empty() =~= people_view(v@));
        assert(sp_people(bytes@.skip(*old(i) as int)) == Ok::<
            (Seq<PersonV>, Seq<u8>),
            DecodeError,
        >((people_view(v@), bytes@.skip(*i as int))));
    }
    Ok(v)
}

fn parse_document(bytes: &[u8], i: &mut usize) -> (r: Result<Document, DecodeError>)
    requires
        *old(i) <= bytes@.len(),
    ensures
        match r {
            Ok(d) => {
                &&& *final(i) <= bytes@.len()
                &&& sp_document(bytes@.skip(*old(i) as int)) == Ok::<
                    (DocumentV, Seq<u8>),
                    DecodeError,
                >((d@, bytes@.skip(*final(i) as int)))
            },
            Err(e) => sp_document(bytes@.skip(*old(i) as int)) == Err::<
                (DocumentV, Seq<u8>),
                DecodeError,
            >(e),
        },
{
    let c = match parse_u8(bytes, i) {
        Ok(c) => c,
        Err(e) => {
            return Err(e);
        },
    };
    if c != 4 {
        return Err(DecodeError::WrongFieldCount);
    }
    let id = match parse_tagged_u64(bytes, i) {
        Ok(x) => x,
        Err(e) => {
            return Err(e);
        },
    };
    let name = match parse_tagged_str(bytes, i) {
        Ok(x) => x,
        Err(e) => {
            return Err(e);
        },
    };
    let authors = match parse_people(bytes, i) {
        Ok(x) => x,
        Err(e) => {
            return Err(e);
        },
    };
    let content = match parse_tagged_str(bytes, i) {
        Ok(x) => x,
        Err(e) => {
            return Err(e);
        },
    };
    let entries = vec![
        Entry::Uint(id),
        Entry::Text(name),
        Entry::People(authors),
        Entry::Text(content),
    ];
    match document_build_indexed(entries) {
        Ok(d) => {
            proof {
                assert(sp_document(bytes@.skip(*old(i) as int))->Ok_0.0 =~= d@);
            }
            Ok(d)
        },
        Err(_) => {
            proof {
                assert(false);
            }
            unreached()
        },
    }
}

/// Decode one document from the front of the buffer, reporting how many
/// bytes it took and leaving any remaining input to the caller: the lenient
/// strictness policy.
pub fn decode_prefix(bytes: &[u8]) -> (r: Result<(Document, usize), DecodeError>)
    ensures
        match r {
            Ok(du) => du.1 <= bytes@.len() && sp_document(bytes@) == Ok::<
                (DocumentV, Seq<u8>),
                DecodeError,
            >((du.0@, bytes@.skip(du.1 as int))),
            Err(e) => sp_document(bytes@) == Err::<(DocumentV, Seq<u8>), DecodeError>(e),
        },
{
    let mut i: usize = 0;
    proof {
        assert(bytes@.skip(0) =~= bytes@);
    }
    match parse_document(bytes, &mut i) {
        Ok(d) => Ok((d, i)),
        Err(e) => Err(e),
    }
}

/// Decode one document from the whole buffer, rejecting trailing input:
/// the strict strictness policy.
pub fn decode(bytes: &[u8]) -> (r: Result<Document, DecodeError>)
    ensures
        match r {
            Ok(d) => spec_decode(bytes@) == Ok::<DocumentV, DecodeError>(d@),
            Err(e) => spec_decode(bytes@) == Err::<DocumentV, DecodeError>(e),
        },
{
    let mut i: usize = 0;
    proof {
        assert(bytes@.skip(0) =~= bytes@);
    }
    let d = match parse_document(bytes, &mut i) {
        Ok(d) => d,
        Err(e) => {
            return Err(e);
        },
    };
    if i < bytes.len() {
        return Err(DecodeError::TrailingInput);
    }
    proof {
        assert(bytes@.skip(i as int).len() == 0);
    }
    Ok(d)
}

} // verus!
