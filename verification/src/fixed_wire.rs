//! The fixed-width positional envelope, in either byte order: an
//! index-protocol backend that writes the declared fields back to back with
//! no tags, relying on the fixed field order the protocol guarantees.
//!
//! The format of a document is `id`, `name`, the author count followed by
//! each author, then `content`; integers take eight bytes in the chosen byte
//! order and text is length-prefixed UTF-8.

use crate::entry::{DecodeError, Entry};
use crate::index_codec::{
    document_build_indexed, document_emit_indexed, person_build_indexed, person_emit_indexed,
};
use crate::types::{people_view, Document, DocumentV, Person, PersonV};
use crate::wire::{
    parse_str, parse_u64, ser_str, ser_u64, sp_str, sp_u64, write_str, write_u64,
};
use vstd::pervasive::unreached;
use vstd::prelude::*;
use vstd::utf8::encode_utf8;

verus! {

// ------------------------------------------------------------------
// Wire specification
// ------------------------------------------------------------------

pub open spec fn ser_person(be: bool, p: PersonV) -> Seq<u8> {
    ser_u64(be, p.id) + ser_str(be, p.name) + ser_str(be, p.email)
}

pub open spec fn ser_people_from(be: bool, s: Seq<PersonV>) -> Seq<u8>
    decreases s.len(),
{
    if s.len() == 0 {
        Seq::empty()
    } else {
        ser_person(be, s[0]) + ser_people_from(be, s.drop_first())
    }
}

pub open spec fn ser_people(be: bool, s: Seq<PersonV>) -> Seq<u8> {
    ser_u64(be, s.len() as u64) + ser_people_from(be, s)
}

pub open spec fn ser_document(be: bool, d: DocumentV) -> Seq<u8> {
    ser_u64(be, d.id) + ser_str(be, d.name) + ser_people(be, d.authors) + ser_str(be, d.content)
}

pub open spec fn sp_person(be: bool, b: Seq<u8>) -> Result<(PersonV, Seq<u8>), DecodeError> {
    match sp_u64(be, b) {
        Ok((id, r1)) => match sp_str(be, r1) {
            Ok((name, r2)) => match sp_str(be, r2) {
                Ok((email, r3)) => Ok((PersonV { id, name, email }, r3)),
                Err(e) => Err(e),
            },
            Err(e) => Err(e),
        },
        Err(e) => Err(e),
    }
}

pub open spec fn sp_people_from(be: bool, b: Seq<u8>, n: nat) -> Result<
    (Seq<PersonV>, Seq<u8>),
    DecodeError,
>
    decreases n,
{
    if n == 0 {
        Ok((Seq::empty(), b))
    } else {
        match sp_person(be, b) {
            Ok((p, r1)) => match sp_people_from(be, r1, (n - 1) as nat) {
                Ok((ps, r2)) => Ok((seq![p] + ps, r2)),
                Err(e) => Err(e),
            },
            Err(e) => Err(e),
        }
    }
}

pub open spec fn sp_people(be: bool, b: Seq<u8>) -> Result<(Seq<PersonV>, Seq<u8>), DecodeError> {
    match sp_u64(be, b) {
        Ok((n, rest)) => sp_people_from(be, rest, n as nat),
        Err(e) => Err(e),
    }
}

pub open spec fn sp_document(be: bool, b: Seq<u8>) -> Result<(DocumentV, Seq<u8>), DecodeError> {
    match sp_u64(be, b) {
        Ok((id, r1)) => match sp_str(be, r1) {
            Ok((name, r2)) => match sp_people(be, r2) {
                Ok((authors, r3)) => match sp_str(be, r3) {
                    Ok((content, r4)) => Ok((DocumentV { id, name, authors, content }, r4)),
                    Err(e) => Err(e),
                },
                Err(e) => Err(e),
            },
            Err(e) => Err(e),
        },
        Err(e) => Err(e),
    }
}

/// Whole-buffer decode: one document, with nothing allowed to remain.
pub open spec fn spec_decode(be: bool, b: Seq<u8>) -> Result<DocumentV, DecodeError> {
    match sp_document(be, b) {
        Ok((d, rest)) => if rest.len() == 0 {
            Ok(d)
        } else {
            Err(DecodeError::TrailingInput)
        },
        Err(e) => Err(e),
    }
}

/// The text fields and author count fit in 64-bit length prefixes. Every
/// record held in memory satisfies this; the bound matters only for the
/// lemmas, which quantify over unbounded mathematical values.
pub open spec fn person_bounded(p: PersonV) -> bool {
    encode_utf8(p.name).len() <= u64::MAX && encode_utf8(p.email).len() <= u64::MAX
}

/// Elementwise boundedness of an author list, in recursive form.
pub open spec fn people_bounded(s: Seq<PersonV>) -> bool
    decreases s.len(),
{
    s.len() == 0 || (person_bounded(s[0]) && people_bounded(s.drop_first()))
}

/// Elementwise boundedness follows from the pointwise bound.
pub proof fn lemma_people_bounded_from_forall(s: Seq<PersonV>)
    requires
        forall|j: int| 0 <= j < s.len() ==> person_bounded(#[trigger] s[j]),
    ensures
        people_bounded(s),
    decreases s.len(),
{
    if s.len() > 0 {
        assert(forall|j: int|
            0 <= j < s.drop_first().len() ==> person_bounded(#[trigger] s.drop_first()[j]));
        lemma_people_bounded_from_forall(s.drop_first());
    }
}

pub open spec fn document_bounded(d: DocumentV) -> bool {
    &&& encode_utf8(d.name).len() <= u64::MAX
    &&& encode_utf8(d.content).len() <= u64::MAX
    &&& d.authors.len() <= u64::MAX
    &&& forall|j: int| 0 <= j < d.authors.len() ==> person_bounded(#[trigger] d.authors[j])
}

// ------------------------------------------------------------------
// Round-trip lemmas
// ------------------------------------------------------------------

pub proof fn lemma_sp_person(be: bool, p: PersonV, rest: Seq<u8>)
    requires
        person_bounded(p),
    ensures
        sp_person(be, ser_person(be, p) + rest) == Ok::<(PersonV, Seq<u8>), DecodeError>(
            (p, rest),
        ),
{
    let t2 = ser_str(be, p.email) + rest;
    let t1 = ser_str(be, p.name) + t2;
    assert(ser_person(be, p) + rest =~= ser_u64(be, p.id) + t1);
    crate::wire::lemma_sp_u64(be, p.id, t1);
    crate::wire::lemma_sp_str(be, p.name, t2);
    crate::wire::lemma_sp_str(be, p.email, rest);
    assert(sp_person(be, ser_person(be, p) + rest)->Ok_0.0 =~= p);
}

pub proof fn lemma_sp_people_from(be: bool, s: Seq<PersonV>, rest: Seq<u8>)
    requires
        people_bounded(s),
    ensures
        sp_people_from(be, ser_people_from(be, s) + rest, s.len() as nat) == Ok::<
            (Seq<PersonV>, Seq<u8>),
            DecodeError,
        >((s, rest)),
    decreases s.len(),
{
    if s.len() == 0 {
        assert(s =~= Seq::<PersonV>::empty());
        assert(ser_people_from(be, s) + rest =~= rest);
    } else {
        lemma_sp_people_from(be, s.drop_first(), rest);
        lemma_sp_people_from_step(be, s[0], s.drop_first(), rest);
        let s2 = seq![s[0]] + s.drop_first();
        assert(s2 =~= s);
        assert(sp_people_from(be, ser_people_from(be, s) + rest, s.len() as nat) == Ok::<
            (Seq<PersonV>, Seq<u8>),
            DecodeError,
        >((s, rest)));
    }
}

proof fn lemma_sp_people_from_step(be: bool, p0: PersonV, ps: Seq<PersonV>, rest: Seq<u8>)
    requires
        person_bounded(p0),
        sp_people_from(be, ser_people_from(be, ps) + rest, ps.len() as nat) == Ok::<
            (Seq<PersonV>, Seq<u8>),
            DecodeError,
        >((ps, rest)),
    ensures
        sp_people_from(be, ser_people_from(be, seq![p0] + ps) + rest, (seq![p0] + ps).len() as nat)
            == Ok::<(Seq<PersonV>, Seq<u8>), DecodeError>((seq![p0] + ps, rest)),
{
    let s = seq![p0] + ps;
    assert(s.len() == ps.len() + 1);
    assert(s[0] == p0);
    assert(s.drop_first() =~= ps);
    assert(ser_people_from(be, s) == ser_person(be, p0) + ser_people_from(be, ps));
    vstd::seq_lib::lemma_concat_associative(ser_person(be, p0), ser_people_from(be, ps), rest);
    assert(ser_people_from(be, s) + rest == ser_person(be, p0) + (ser_people_from(be, ps)
        + rest));
    lemma_sp_person(be, p0, ser_people_from(be, ps) + rest);
    assert(seq![s[0]] + s.drop_first() =~= s);
}

pub proof fn lemma_sp_people(be: bool, s: Seq<PersonV>, rest: Seq<u8>)
    requires
        s.len() <= u64::MAX,
        forall|j: int| 0 <= j < s.len() ==> person_bounded(#[trigger] s[j]),
    ensures
        sp_people(be, ser_people(be, s) + rest) == Ok::<(Seq<PersonV>, Seq<u8>), DecodeError>(
            (s, rest),
        ),
{
    let tail = ser_people_from(be, s) + rest;
    assert(ser_people(be, s) + rest =~= ser_u64(be, s.len() as u64) + tail);
    crate::wire::lemma_sp_u64(be, s.len() as u64, tail);
    lemma_people_bounded_from_forall(s);
    lemma_sp_people_from(be, s, rest);
}

pub proof fn lemma_sp_document(be: bool, d: DocumentV, rest: Seq<u8>)
    requires
        document_bounded(d),
    ensures
        sp_document(be, ser_document(be, d) + rest) == Ok::<(DocumentV, Seq<u8>), DecodeError>(
            (d, rest),
        ),
{
    let t3 = ser_str(be, d.content) + rest;
    let t2 = ser_people(be, d.authors) + t3;
    let t1 = ser_str(be, d.name) + t2;
    assert(ser_document(be, d) + rest =~= ser_u64(be, d.id) + t1);
    crate::wire::lemma_sp_u64(be, d.id, t1);
    crate::wire::lemma_sp_str(be, d.name, t2);
    lemma_sp_people(be, d.authors, t3);
    crate::wire::lemma_sp_str(be, d.content, rest);
    assert(sp_document(be, ser_document(be, d) + rest)->Ok_0.0 =~= d);
}

/// Round trip: decoding the encoding of any (representable) document yields
/// exactly that document, in either byte order.
pub proof fn lemma_round_trip(be: bool, d: DocumentV)
    requires
        document_bounded(d),
    ensures
        spec_decode(be, ser_document(be, d)) == Ok::<DocumentV, DecodeError>(d),
{
    lemma_sp_document(be, d, Seq::empty());
    assert(ser_document(be, d) + Seq::<u8>::empty() =~= ser_document(be, d));
}

/// Trailing input is fatal: any nonempty suffix after a well-formed document
/// turns the decode into an arity error.
pub proof fn lemma_trailing_input(be: bool, d: DocumentV, extra: Seq<u8>)
    requires
        document_bounded(d),
        extra.len() > 0,
    ensures
        spec_decode(be, ser_document(be, d) + extra) == Err::<DocumentV, DecodeError>(
            DecodeError::TrailingInput,
        ),
{
    lemma_sp_document(be, d, extra);
}

pub proof fn lemma_ser_str_len(be: bool, s: Seq<char>)
    ensures
        ser_str(be, s).len() == 8 + encode_utf8(s).len(),
{
    reveal(crate::wire::ser_str);
    crate::wire::lemma_sp_u64(be, encode_utf8(s).len() as u64, Seq::empty());
}

/// Encoded size grows monotonically with the content payload: two documents
/// that agree on everything but the content payload compare in encoded size
/// as their content payloads compare in UTF-8 byte length.
pub proof fn lemma_size_monotone(be: bool, a: DocumentV, b: DocumentV)
    requires
        a.id == b.id,
        a.name == b.name,
        a.authors == b.authors,
        encode_utf8(a.content).len() <= encode_utf8(b.content).len(),
    ensures
        ser_document(be, a).len() <= ser_document(be, b).len(),
{
    lemma_ser_str_len(be, a.content);
    lemma_ser_str_len(be, b.content);
}

// ------------------------------------------------------------------
// Executable encode: the index protocol drives the writer
// ------------------------------------------------------------------

fn write_person(out: &mut Vec<u8>, be: bool, p: &Person)
    ensures
        final(out)@ == old(out)@ + ser_person(be, p@),
{
    let mut fields = person_emit_indexed(p).1;
    let e2 = fields.pop().unwrap();
    let e1 = fields.pop().unwrap();
    let e0 = fields.pop().unwrap();
    match (e0.1, e1.1, e2.1) {
        (Entry::Uint(id), Entry::Text(name), Entry::Text(email)) => {
            write_u64(out, be, id);
            write_str(out, be, name.as_str());
            write_str(out, be, email.as_str());
            proof {
                assert(out@ =~= old(out)@ + ser_person(be, p@));
            }
        },
        _ => {
            proof {
                assert(false);
            }
        },
    }
}

fn write_people(out: &mut Vec<u8>, be: bool, v: &Vec<Person>)
    ensures
        final(out)@ == old(out)@ + ser_people(be, people_view(v@)),
{
    let ghost all = people_view(v@);
    write_u64(out, be, v.len() as u64);
    let mut j: usize = 0;
    proof {
        assert(all.take(0) =~= Seq::<PersonV>::empty());
    }
    while j < v.len()
        invariant
            j <= v@.len(),
            all == people_view(v@),
            out@ == old(out)@ + ser_u64(be, v@.len() as u64) + ser_people_from(
                be,
                all.take(j as int),
            ),
        decreases v@.len() - j,
    {
        write_person(out, be, &v[j]);
        proof {
            lemma_ser_people_from_snoc(be, all, j as int);
            assert(all[j as int] == v@[j as int]@);
        }
        j = j + 1;
    }
    proof {
        assert(all.take(v@.len() as int) =~= all);
        assert(old(out)@ + ser_u64(be, v@.len() as u64) + ser_people_from(be, all) =~= old(out)@
            + ser_people(be, all));
    }
}

proof fn lemma_ser_people_from_snoc(be: bool, s: Seq<PersonV>, j: int)
    requires
        0 <= j < s.len(),
    ensures
        ser_people_from(be, s.take(j + 1)) == ser_people_from(be, s.take(j)) + ser_person(
            be,
            s[j],
        ),
    decreases j,
{
    if j == 0 {
        assert(s.take(1) =~= seq![s[0]]);
        assert(seq![s[0]].drop_first() =~= Seq::<PersonV>::empty());
        assert(ser_people_from(be, Seq::<PersonV>::empty()) == Seq::<u8>::empty());
        assert(seq![s[0]][0] == s[0]);
        assert(ser_people_from(be, seq![s[0]]) == ser_person(be, s[0]) + Seq::<u8>::empty());
        assert(ser_person(be, s[0]) + Seq::<u8>::empty() =~= ser_person(be, s[0]));
        assert(s.take(0) =~= Seq::<PersonV>::empty());
    } else {
        let t = s.drop_first();
        lemma_ser_people_from_snoc(be, t, j - 1);
        assert(s.take(j + 1).len() == j + 1);
        assert(s.take(j).len() == j);
        assert(s.take(j + 1).drop_first() =~= t.take(j));
        assert(s.take(j).drop_first() =~= t.take(j - 1));
        assert(ser_people_from(be, s.take(j + 1)) == ser_person(be, s.take(j + 1)[0])
            + ser_people_from(be, s.take(j + 1).drop_first()));
        assert(ser_people_from(be, s.take(j)) == ser_person(be, s.take(j)[0]) + ser_people_from(
            be,
            s.take(j).drop_first(),
        ));
        assert(s.take(j + 1)[0] == s[0]);
        assert(s.take(j)[0] == s[0]);
        assert(t[j - 1] == s[j]);
        assert(ser_people_from(be, s.take(j + 1)) == ser_person(be, s[0]) + (ser_people_from(
            be,
            t.take(j - 1),
        ) + ser_person(be, s[j])));
        assert(ser_person(be, s[0]) + (ser_people_from(be, t.take(j - 1)) + ser_person(be, s[j]))
            =~= (ser_person(be, s[0]) + ser_people_from(be, t.take(j - 1))) + ser_person(
            be,
            s[j],
        ));
    }
}

fn write_document(out: &mut Vec<u8>, be: bool, d: &Document)
    ensures
        final(out)@ == old(out)@ + ser_document(be, d@),
{
    let mut fields = document_emit_indexed(d).1;
    let e3 = fields.pop().unwrap();
    let e2 = fields.pop().unwrap();
    let e1 = fields.pop().unwrap();
    let e0 = fields.pop().unwrap();
    match (e0.1, e1.1, e2.1, e3.1) {
        (Entry::Uint(id), Entry::Text(name), Entry::People(authors), Entry::Text(content)) => {
            write_u64(out, be, id);
            write_str(out, be, name.as_str());
            write_people(out, be, &authors);
            write_str(out, be, content.as_str());
            proof {
                assert(out@ =~= old(out)@ + ser_document(be, d@));
            }
        },
        _ => {
            proof {
                assert(false);
            }
        },
    }
}

/// Encode a document through the index-based protocol into the fixed-width
/// envelope with the chosen byte order.
pub fn encode_with(be: bool, d: &Document) -> (r: Vec<u8>)
    ensures
        r@ == ser_document(be, d@),
{
    let mut out: Vec<u8> = Vec::new();
    write_document(&mut out, be, d);
    proof {
        assert(Seq::<u8>::empty() + ser_document(be, d@) =~= ser_document(be, d@));
    }
    out
}

// ------------------------------------------------------------------
// Executable decode: the parser feeds the index protocol
// ------------------------------------------------------------------

fn parse_person(be: bool, bytes: &[u8], i: &mut usize) -> (r: Result<Person, DecodeError>)
    requires
        *old(i) <= bytes@.len(),
    ensures
        match r {
            Ok(p) => {
                &&& *final(i) <= bytes@.len()
                &&& sp_person(be, bytes@.skip(*old(i) as int)) == Ok::<
                    (PersonV, Seq<u8>),
                    DecodeError,
                >((p@, bytes@.skip(*final(i) as int)))
            },
            Err(e) => sp_person(be, bytes@.skip(*old(i) as int)) == Err::<
                (PersonV, Seq<u8>),
                DecodeError,
            >(e),
        },
{
    let id = match parse_u64(be, bytes, i) {
        Ok(x) => x,
        Err(e) => {
            return Err(e);
        },
    };
    let name = match parse_str(be, bytes, i) {
        Ok(x) => x,
        Err(e) => {
            return Err(e);
        },
    };
    let email = match parse_str(be, bytes, i) {
        Ok(x) => x,
        Err(e) => {
            return Err(e);
        },
    };
    let entries = vec![Entry::Uint(id), Entry::Text(name), Entry::Text(email)];
    match person_build_indexed(entries) {
        Ok(p) => {
            proof {
                assert(sp_person(be, bytes@.skip(*old(i) as int))->Ok_0.0 =~= p@);
            }
            Ok(p)
        },
        Err(_) => {
            proof {
                assert(false);
            }
            unreached()
        },
    }
}

#[verifier::rlimit(80)]
fn parse_people(be: bool, bytes: &[u8], i: &mut usize) -> (r: Result<Vec<Person>, DecodeError>)
    requires
        *old(i) <= bytes@.len(),
    ensures
        match r {
            Ok(v) => {
                &&& *final(i) <= bytes@.len()
                &&& sp_people(be, bytes@.skip(*old(i) as int)) == Ok::<
                    (Seq<PersonV>, Seq<u8>),
                    DecodeError,
                >((people_view(v@), bytes@.skip(*final(i) as int)))
            },
            Err(e) => sp_people(be, bytes@.skip(*old(i) as int)) == Err::<
                (Seq<PersonV>, Seq<u8>),
                DecodeError,
            >(e),
        },
{
    let n = match parse_u64(be, bytes, i) {
        Ok(x) => x,
        Err(e) => {
            return Err(e);
        },
    };
    let ghost start = *i as int;
    let mut v: Vec<Person> = Vec::new();
    let mut j: u64 = 0;
    proof {
        assert(people_view(v@) =~= Seq::<PersonV>::empty());
        let x = sp_people_from(be, bytes@.skip(start), n as nat);
        if x is Ok {
            assert(people_view(v@) + x->Ok_0.0 =~= x->Ok_0.0);
        }
    }
    while j < n
        invariant
            j <= n,
            *i <= bytes@.len(),
            sp_u64(be, bytes@.skip(*old(i) as int)) == Ok::<(u64, Seq<u8>), DecodeError>(
                (n, bytes@.skip(start)),
            ),
            sp_people_from(be, bytes@.skip(start), n as nat) == (match sp_people_from(
                be,
                bytes@.skip(*i as int),
                (n - j) as nat,
            ) {
                Ok((ps, r)) => Ok::<(Seq<PersonV>, Seq<u8>), DecodeError>(
                    (people_view(v@) + ps, r),
                ),
                Err(e) => Err::<(Seq<PersonV>, Seq<u8>), DecodeError>(e),
            }),
        decreases n - j,
    {
        let ghost i0 = *i as int;
        let ghost v0 = people_view(v@);
        let p = match parse_person(be, bytes, i) {
            Ok(p) => p,
            Err(e) => {
                proof {
                    assert(sp_people_from(be, bytes@.skip(i0), (n - j) as nat) == Err::<
                        (Seq<PersonV>, Seq<u8>),
                        DecodeError,
                    >(e));
                }
                return Err(e);
            },
        };
        v.push(p);
        proof {
            assert(people_view(v@) =~= v0 + seq![p@]);
            let x = sp_people_from(be, bytes@.skip(*i as int), (n - (j + 1)) as nat);
            if x is Ok {
                assert(v0 + (seq![p@] + x->Ok_0.0) =~= (v0 + seq![p@]) + x->Ok_0.0);
            }
        }
        j = j + 1;
    }
    proof {
        assert(sp_people_from(be, bytes@.skip(*i as int), (n - j) as nat) == Ok::<
            (Seq<PersonV>, Seq<u8>),
            DecodeError,
        >((Seq::<PersonV>::empty(), bytes@.skip(*i as int))));
        assert(people_view(v@) + Seq::<PersonV>::empty() =~= people_view(v@));
        assert(sp_people(be, bytes@.skip(*old(i) as int)) == Ok::<
            (Seq<PersonV>, Seq<u8>),
            DecodeError,
        >((people_view(v@), bytes@.skip(*i as int))));
    }
    Ok(v)
}

fn parse_document(be: bool, bytes: &[u8], i: &mut usize) -> (r: Result<Document, DecodeError>)
    requires
        *old(i) <= bytes@.len(),
    ensures
        match r {
            Ok(d) => {
                &&& *final(i) <= bytes@.len()
                &&& sp_document(be, bytes@.skip(*old(i) as int)) == Ok::<
                    (DocumentV, Seq<u8>),
                    DecodeError,
                >((d@, bytes@.skip(*final(i) as int)))
            },
            Err(e) => sp_document(be, bytes@.skip(*old(i) as int)) == Err::<
                (DocumentV, Seq<u8>),
                DecodeError,
            >(e),
        },
{
    let id = match parse_u64(be, bytes, i) {
        Ok(x) => x,
        Err(e) => {
            return Err(e);
        },
    };
    let name = match parse_str(be, bytes, i) {
        Ok(x) => x,
        Err(e) => {
            return Err(e);
        },
    };
    let authors = match parse_people(be, bytes, i) {
        Ok(x) => x,
        Err(e) => {
            return Err(e);
        },
    };
    let content = match parse_str(be, bytes, i) {
        Ok(x) => x,
        Err(e) => {
            return Err(e);
        },
    };
    let entries = vec![
        Entry::Uint(id),
        Entry::Text(name),
        Entry::People(authors),
        Entry::Text(content),
    ];
    match document_build_indexed(entries) {
        Ok(d) => {
            proof {
                assert(sp_document(be, bytes@.skip(*old(i) as int))->Ok_0.0 =~= d@);
            }
            Ok(d)
        },
        Err(_) => {
            proof {
                assert(false);
            }
            unreached()
        },
    }
}

/// Decode one document from the front of the buffer, reporting how many
/// bytes it took and leaving any remaining input to the caller: the lenient
/// strictness policy.
pub fn decode_prefix_with(be: bool, bytes: &[u8]) -> (r: Result<(Document, usize), DecodeError>)
    ensures
        match r {
            Ok(du) => du.1 <= bytes@.len() && sp_document(be, bytes@) == Ok::<
                (DocumentV, Seq<u8>),
                DecodeError,
            >((du.0@, bytes@.skip(du.1 as int))),
            Err(e) => sp_document(be, bytes@) == Err::<(DocumentV, Seq<u8>), DecodeError>(e),
        },
{
    let mut i: usize = 0;
    proof {
        assert(bytes@.skip(0) =~= bytes@);
    }
    match parse_document(be, bytes, &mut i) {
        Ok(d) => Ok((d, i)),
        Err(e) => Err(e),
    }
}

/// Decode one document from the whole buffer, rejecting trailing input:
/// the strict strictness policy.
pub fn decode_with(be: bool, bytes: &[u8]) -> (r: Result<Document, DecodeError>)
    ensures
        match r {
            Ok(d) => spec_decode(be, bytes@) == Ok::<DocumentV, DecodeError>(d@),
            Err(e) => spec_decode(be, bytes@) == Err::<DocumentV, DecodeError>(e),
        },
{
    let mut i: usize = 0;
    proof {
        assert(bytes@.skip(0) =~= bytes@);
    }
    let d = match parse_document(be, bytes, &mut i) {
        Ok(d) => d,
        Err(e) => {
            return Err(e);
        },
    };
    if i < bytes.len() {
        return Err(DecodeError::TrailingInput);
    }
    proof {
        assert(bytes@.skip(i as int).len() == 0);
    }
    Ok(d)
}

} // verus!
