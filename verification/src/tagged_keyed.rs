//! Backend binding: the key-based protocol over a self-describing tagged
//! envelope with named fields. A record opens with a pair count; each pair
//! is a field name followed by a tagged value. The decode side accepts the
//! pairs in any order and hands them to the key-based accumulation, so an
//! unknown name, a missing field or a wrongly-kinded value surfaces exactly
//! as the protocol's own error.

use crate::entry::{DecodeError, Entry, EntryV};
use crate::fixed_wire::{
    document_bounded, lemma_ser_str_len, people_bounded, person_bounded,
};
use crate::key_codec::{
    document_from_pairs, document_from_pairs_spec, pairs_view, person_from_pairs,
    person_from_pairs_spec, DocumentCursor, PersonCursor,
};
use crate::tagged_wire::{
    lemma_sp_tagged_str, lemma_sp_tagged_u64, ser_tagged_str, ser_tagged_u64,
};
use crate::types::{people_view, Document, DocumentV, Person, PersonV};
use crate::wire::{
    parse_str, parse_u64, parse_u8, ser_str, ser_u64, sp_str, sp_u64, sp_u8, write_str,
    write_u64, write_u8, TAG_PEOPLE, TAG_TEXT, TAG_UINT,
};
use vstd::prelude::*;
use vstd::utf8::{encode_utf8, is_ascii_chars, is_ascii_chars_encode_utf8};

verus! {

// ------------------------------------------------------------------
// Wire specification
// ------------------------------------------------------------------

pub open spec fn ser_pair_u64(name: Seq<char>, x: u64) -> Seq<u8> {
    ser_str(false, name) + ser_tagged_u64(x)
}

pub open spec fn ser_pair_str(name: Seq<char>, s: Seq<char>) -> Seq<u8> {
    ser_str(false, name) + ser_tagged_str(s)
}

pub open spec fn ser_people_from(s: Seq<PersonV>) -> Seq<u8>
    decreases s.len(),
{
    if s.len() == 0 {
        Seq::empty()
    } else {
        ser_person(s[0]) + ser_people_from(s.drop_first())
    }
}

/// The payload of an author-list value: the count, then each author as a
/// named-field map.
pub open spec fn ser_people_block(s: Seq<PersonV>) -> Seq<u8> {
    ser_u64(false, s.len() as u64) + ser_people_from(s)
}

pub open spec fn ser_pair_people(name: Seq<char>, s: Seq<PersonV>) -> Seq<u8> {
    ser_str(false, name) + (seq![TAG_PEOPLE] + ser_people_block(s))
}

/// The first `k` pairs of a person, in declared order.
pub open spec fn ser_person_pairs_upto(p: PersonV, k: int) -> Seq<u8> {
    if k <= 0 {
        Seq::empty()
    } else if k == 1 {
        ser_pair_u64("id"@, p.id)
    } else if k == 2 {
        ser_pair_u64("id"@, p.id) + ser_pair_str("name"@, p.name)
    } else {
        ser_pair_u64("id"@, p.id) + ser_pair_str("name"@, p.name) + ser_pair_str(
            "email"@,
            p.email,
        )
    }
}

pub open spec fn ser_person(p: PersonV) -> Seq<u8> {
    seq![3u8] + ser_person_pairs_upto(p, 3)
}

/// The first `k` pairs of a document, in declared order.
pub open spec fn ser_doc_pairs_upto(d: DocumentV, k: int) -> Seq<u8> {
    if k <= 0 {
        Seq::empty()
    } else if k == 1 {
        ser_pair_u64("id"@, d.id)
    } else if k == 2 {
        ser_pair_u64("id"@, d.id) + ser_pair_str("name"@, d.name)
    } else if k == 3 {
        ser_pair_u64("id"@, d.id) + ser_pair_str("name"@, d.name) + ser_pair_people(
            "authors"@,
            d.authors,
        )
    } else {
        ser_pair_u64("id"@, d.id) + ser_pair_str("name"@, d.name) + ser_pair_people(
            "authors"@,
            d.authors,
        ) + ser_pair_str("content"@, d.content)
    }
}

pub open spec fn ser_document(d: DocumentV) -> Seq<u8> {
    seq![4u8] + ser_doc_pairs_upto(d, 4)
}

pub open spec fn spec_encode(d: DocumentV) -> Seq<u8> {
    ser_document(d)
}

/// A scalar value as found inside a person map: a tag byte, then the value.
pub open spec fn sp_scalar_value(b: Seq<u8>) -> Result<(EntryV, Seq<u8>), DecodeError> {
    match sp_u8(b) {
        Ok((t, r)) => if t == TAG_UINT {
            match sp_u64(false, r) {
                Ok((x, r2)) => Ok((EntryV::Uint(x), r2)),
                Err(e) => Err(e),
            }
        } else if t == TAG_TEXT {
            match sp_str(false, r) {
                Ok((s, r2)) => Ok((EntryV::Text(s), r2)),
                Err(e) => Err(e),
            }
        } else {
            Err(DecodeError::Malformed)
        },
        Err(e) => Err(e),
    }
}

pub open spec fn sp_scalar_pair(b: Seq<u8>) -> Result<((Seq<char>, EntryV), Seq<u8>), DecodeError> {
    match sp_str(false, b) {
        Ok((k, r)) => match sp_scalar_value(r) {
            Ok((v, r2)) => Ok(((k, v), r2)),
            Err(e) => Err(e),
        },
        Err(e) => Err(e),
    }
}

pub open spec fn sp_scalar_pairs(b: Seq<u8>, n: nat) -> Result<
    (Seq<(Seq<char>, EntryV)>, Seq<u8>),
    DecodeError,
>
    decreases n,
{
    if n == 0 {
        Ok((Seq::empty(), b))
    } else {
        match sp_scalar_pair(b) {
            Ok((pr, r1)) => match sp_scalar_pairs(r1, (n - 1) as nat) {
                Ok((prs, r2)) => Ok((seq![pr] + prs, r2)),
                Err(e) => Err(e),
            },
            Err(e) => Err(e),
        }
    }
}

/// A person map: a pair count, that many name/value pairs, then the
/// key-based accumulation of whatever pairs appeared.
pub open spec fn sp_person(b: Seq<u8>) -> Result<(PersonV, Seq<u8>), DecodeError> {
    match sp_u8(b) {
        Ok((n, r)) => match sp_scalar_pairs(r, n as nat) {
            Ok((pairs, r2)) => match person_from_pairs_spec(pairs) {
                Ok(p) => Ok((p, r2)),
                Err(e) => Err(e),
            },
            Err(e) => Err(e),
        },
        Err(e) => Err(e),
    }
}

pub open spec fn sp_persons(b: Seq<u8>, n: nat) -> Result<(Seq<PersonV>, Seq<u8>), DecodeError>
    decreases n,
{
    if n == 0 {
        Ok((Seq::empty(), b))
    } else {
        match sp_person(b) {
            Ok((p, r1)) => match sp_persons(r1, (n - 1) as nat) {
                Ok((ps, r2)) => Ok((seq![p] + ps, r2)),
                Err(e) => Err(e),
            },
            Err(e) => Err(e),
        }
    }
}

/// A document value: scalars as in a person map, plus the author-list kind.
pub open spec fn sp_doc_value(b: Seq<u8>) -> Result<(EntryV, Seq<u8>), DecodeError> {
    match sp_u8(b) {
        Ok((t, r)) => if t == TAG_UINT {
            match sp_u64(false, r) {
                Ok((x, r2)) => Ok((EntryV::Uint(x), r2)),
                Err(e) => Err(e),
            }
        } else if t == TAG_TEXT {
            match sp_str(false, r) {
                Ok((s, r2)) => Ok((EntryV::Text(s), r2)),
                Err(e) => Err(e),
            }
        } else if t == TAG_PEOPLE {
            match sp_u64(false, r) {
                Ok((n, r2)) => match sp_persons(r2, n as nat) {
                    Ok((ps, r3)) => Ok((EntryV::People(ps), r3)),
                    Err(e) => Err(e),
                },
                Err(e) => Err(e),
            }
        } else {
            Err(DecodeError::Malformed)
        },
        Err(e) => Err(e),
    }
}

pub open spec fn sp_doc_pair(b: Seq<u8>) -> Result<((Seq<char>, EntryV), Seq<u8>), DecodeError> {
    match sp_str(false, b) {
        Ok((k, r)) => match sp_doc_value(r) {
            Ok((v, r2)) => Ok(((k, v), r2)),
            Err(e) => Err(e),
        },
        Err(e) => Err(e),
    }
}

pub open spec fn sp_doc_pairs(b: Seq<u8>, n: nat) -> Result<
    (Seq<(Seq<char>, EntryV)>, Seq<u8>),
    DecodeError,
>
    decreases n,
{
    if n == 0 {
        Ok((Seq::empty(), b))
    } else {
        match sp_doc_pair(b) {
            Ok((pr, r1)) => match sp_doc_pairs(r1, (n - 1) as nat) {
                Ok((prs, r2)) => Ok((seq![pr] + prs, r2)),
                Err(e) => Err(e),
            },
            Err(e) => Err(e),
        }
    }
}

pub open spec fn sp_document(b: Seq<u8>) -> Result<(DocumentV, Seq<u8>), DecodeError> {
    match sp_u8(b) {
        Ok((n, r)) => match sp_doc_pairs(r, n as nat) {
            Ok((pairs, r2)) => match document_from_pairs_spec(pairs) {
                Ok(d) => Ok((d, r2)),
                Err(e) => Err(e),
            },
            Err(e) => Err(e),
        },
        Err(e) => Err(e),
    }
}

/// Whole-buffer decode: one document, with nothing allowed to remain.
pub open spec fn spec_decode(b: Seq<u8>) -> Result<DocumentV, DecodeError> {
    match sp_document(b) {
        Ok((d, rest)) => if rest.len() == 0 {
            Ok(d)
        } else {
            Err(DecodeError::TrailingInput)
        },
        Err(e) => Err(e),
    }
}

// ------------------------------------------------------------------
// Field-name facts
// ------------------------------------------------------------------

/// The declared field names are short ASCII strings, so their UTF-8
/// encodings are as short, and the names are pairwise distinct.
pub proof fn lemma_field_names()
    ensures
        encode_utf8("id"@).len() == 2,
        encode_utf8("name"@).len() == 4,
        encode_utf8("email"@).len() == 5,
        encode_utf8("authors"@).len() == 7,
        encode_utf8("content"@).len() == 7,
        "id"@ != "name"@ && "id"@ != "email"@ && "id"@ != "authors"@ && "id"@ != "content"@,
        "name"@ != "email"@ && "name"@ != "authors"@ && "name"@ != "content"@,
        "email"@ != "authors"@ && "email"@ != "content"@,
        "authors"@ != "content"@,
{
    reveal_strlit("id");
    reveal_strlit("name");
    reveal_strlit("email");
    reveal_strlit("authors");
    reveal_strlit("content");
    assert(is_ascii_chars("id"@));
    assert(is_ascii_chars("name"@));
    assert(is_ascii_chars("email"@));
    assert(is_ascii_chars("authors"@));
    assert(is_ascii_chars("content"@));
    is_ascii_chars_encode_utf8("id"@);
    is_ascii_chars_encode_utf8("name"@);
    is_ascii_chars_encode_utf8("email"@);
    is_ascii_chars_encode_utf8("authors"@);
    is_ascii_chars_encode_utf8("content"@);
    assert("authors"@[0] == 'a' && "content"@[0] == 'c');
}

// ------------------------------------------------------------------
// Round-trip lemmas
// ------------------------------------------------------------------

proof fn lemma_sp_scalar_pair_u64(name: Seq<char>, x: u64, rest: Seq<u8>)
    requires
        encode_utf8(name).len() <= u64::MAX,
    ensures
        sp_scalar_pair(ser_pair_u64(name, x) + rest) == Ok::<
            ((Seq<char>, EntryV), Seq<u8>),
            DecodeError,
        >(((name, EntryV::Uint(x)), rest)),
        sp_doc_pair(ser_pair_u64(name, x) + rest) == Ok::<
            ((Seq<char>, EntryV), Seq<u8>),
            DecodeError,
        >(((name, EntryV::Uint(x)), rest)),
{
    let t1 = ser_tagged_u64(x) + rest;
    assert(ser_pair_u64(name, x) + rest =~= ser_str(false, name) + t1);
    crate::wire::lemma_sp_str(false, name, t1);
    crate::wire::lemma_sp_u8(TAG_UINT, ser_u64(false, x) + rest);
    assert(t1 =~= seq![TAG_UINT] + (ser_u64(false, x) + rest));
    crate::wire::lemma_sp_u64(false, x, rest);
}

proof fn lemma_sp_scalar_pair_str(name: Seq<char>, s: Seq<char>, rest: Seq<u8>)
    requires
        encode_utf8(name).len() <= u64::MAX,
        encode_utf8(s).len() <= u64::MAX,
    ensures
        sp_scalar_pair(ser_pair_str(name, s) + rest) == Ok::<
            ((Seq<char>, EntryV), Seq<u8>),
            DecodeError,
        >(((name, EntryV::Text(s)), rest)),
        sp_doc_pair(ser_pair_str(name, s) + rest) == Ok::<
            ((Seq<char>, EntryV), Seq<u8>),
            DecodeError,
        >(((name, EntryV::Text(s)), rest)),
{
    let t1 = ser_tagged_str(s) + rest;
    assert(ser_pair_str(name, s) + rest =~= ser_str(false, name) + t1);
    crate::wire::lemma_sp_str(false, name, t1);
    crate::wire::lemma_sp_u8(TAG_TEXT, ser_str(false, s) + rest);
    assert(t1 =~= seq![TAG_TEXT] + (ser_str(false, s) + rest));
    crate::wire::lemma_sp_str(false, s, rest);
}

/// The canonical person pairs, as the encode cursor emits them.
pub open spec fn canonical_person_pairs(p: PersonV) -> Seq<(Seq<char>, EntryV)> {
    seq![
        ("id"@, EntryV::Uint(p.id)),
        ("name"@, EntryV::Text(p.name)),
        ("email"@, EntryV::Text(p.email)),
    ]
}

/// Accumulating the canonical pairs rebuilds the person.
pub proof fn lemma_person_canonical_pairs(p: PersonV)
    ensures
        person_from_pairs_spec(canonical_person_pairs(p)) == Ok::<PersonV, DecodeError>(p),
{
    lemma_field_names();
    let pairs = canonical_person_pairs(p);
    assert(crate::fields::person_field_of_name("id"@) == Some(crate::fields::PersonField::Id));
    assert(crate::fields::person_field_of_name("name"@) == Some(
        crate::fields::PersonField::Name,
    ));
    assert(crate::fields::person_field_of_name("email"@) == Some(
        crate::fields::PersonField::Email,
    ));
    let r1 = pairs.drop_first();
    let r2 = r1.drop_first();
    let r3 = r2.drop_first();
    assert(r1 =~= seq![("name"@, EntryV::Text(p.name)), ("email"@, EntryV::Text(p.email))]);
    assert(r2 =~= seq![("email"@, EntryV::Text(p.email))]);
    assert(r3 =~= Seq::<(Seq<char>, EntryV)>::empty());
    let a0 = crate::key_codec::person_start();
    let a1 = crate::key_codec::person_step(a0, pairs[0].0, pairs[0].1)->Ok_0;
    assert(crate::key_codec::person_fold(a0, pairs) == crate::key_codec::person_fold(a1, r1));
    let a2 = crate::key_codec::person_step(a1, r1[0].0, r1[0].1)->Ok_0;
    assert(crate::key_codec::person_fold(a1, r1) == crate::key_codec::person_fold(a2, r2));
    let a3 = crate::key_codec::person_step(a2, r2[0].0, r2[0].1)->Ok_0;
    assert(crate::key_codec::person_fold(a2, r2) == crate::key_codec::person_fold(a3, r3));
    assert(crate::key_codec::person_fold(a3, r3) == Ok::<
        crate::key_codec::PersonAcc,
        DecodeError,
    >(a3));
    assert(a3.seen_id && a3.seen_name && a3.seen_email);
    assert(a3.rec =~= p);
}

/// The canonical document pairs, as the encode cursor emits them.
pub open spec fn canonical_document_pairs(d: DocumentV) -> Seq<(Seq<char>, EntryV)> {
    seq![
        ("id"@, EntryV::Uint(d.id)),
        ("name"@, EntryV::Text(d.name)),
        ("authors"@, EntryV::People(d.authors)),
        ("content"@, EntryV::Text(d.content)),
    ]
}

/// Accumulating the canonical pairs rebuilds the document.
pub proof fn lemma_document_canonical_pairs(d: DocumentV)
    ensures
        document_from_pairs_spec(canonical_document_pairs(d)) == Ok::<DocumentV, DecodeError>(d),
{
    lemma_field_names();
    let pairs = canonical_document_pairs(d);
    assert(crate::fields::document_field_of_name("id"@) == Some(
        crate::fields::DocumentField::Id,
    ));
    assert(crate::fields::document_field_of_name("name"@) == Some(
        crate::fields::DocumentField::Name,
    ));
    assert(crate::fields::document_field_of_name("authors"@) == Some(
        crate::fields::DocumentField::Authors,
    ));
    assert(crate::fields::document_field_of_name("content"@) == Some(
        crate::fields::DocumentField::Content,
    ));
    let r1 = pairs.drop_first();
    let r2 = r1.drop_first();
    let r3 = r2.drop_first();
    let r4 = r3.drop_first();
    assert(r1 =~= seq![
        ("name"@, EntryV::Text(d.name)),
        ("authors"@, EntryV::People(d.authors)),
        ("content"@, EntryV::Text(d.content)),
    ]);
    assert(r2 =~= seq![
        ("authors"@, EntryV::People(d.authors)),
        ("content"@, EntryV::Text(d.content)),
    ]);
    assert(r3 =~= seq![("content"@, EntryV::Text(d.content))]);
    assert(r4 =~= Seq::<(Seq<char>, EntryV)>::empty());
    let a0 = crate::key_codec::document_start();
    let a1 = crate::key_codec::document_step(a0, pairs[0].0, pairs[0].1)->Ok_0;
    assert(crate::key_codec::document_fold(a0, pairs) == crate::key_codec::document_fold(a1, r1));
    let a2 = crate::key_codec::document_step(a1, r1[0].0, r1[0].1)->Ok_0;
    assert(crate::key_codec::document_fold(a1, r1) == crate::key_codec::document_fold(a2, r2));
    let a3 = crate::key_codec::document_step(a2, r2[0].0, r2[0].1)->Ok_0;
    assert(crate::key_codec::document_fold(a2, r2) == crate::key_codec::document_fold(a3, r3));
    let a4 = crate::key_codec::document_step(a3, r3[0].0, r3[0].1)->Ok_0;
    assert(crate::key_codec::document_fold(a3, r3) == crate::key_codec::document_fold(a4, r4));
    assert(crate::key_codec::document_fold(a4, r4) == Ok::<
        crate::key_codec::DocumentAcc,
        DecodeError,
    >(a4));
    assert(a4.seen_id && a4.seen_name && a4.seen_authors && a4.seen_content);
    assert(a4.rec =~= d);
}

/// Parsing a person map written in declared order yields the person.
pub proof fn lemma_sp_person(p: PersonV, rest: Seq<u8>)
    requires
        person_bounded(p),
    ensures
        sp_person(ser_person(p) + rest) == Ok::<(PersonV, Seq<u8>), DecodeError>((p, rest)),
{
    lemma_field_names();
    let b2 = ser_pair_str("email"@, p.email) + rest;
    let b1 = ser_pair_str("name"@, p.name) + b2;
    let b0 = ser_pair_u64("id"@, p.id) + b1;
    assert(ser_person(p) + rest =~= seq![3u8] + b0);
    crate::wire::lemma_sp_u8(3u8, b0);
    lemma_sp_scalar_pair_u64("id"@, p.id, b1);
    lemma_sp_scalar_pair_str("name"@, p.name, b2);
    lemma_sp_scalar_pair_str("email"@, p.email, rest);
    let t2 = seq![("email"@, EntryV::Text(p.email))] + Seq::<(Seq<char>, EntryV)>::empty();
    let t1 = seq![("name"@, EntryV::Text(p.name))] + t2;
    let t0 = seq![("id"@, EntryV::Uint(p.id))] + t1;
    assert(sp_scalar_pairs(rest, 0) == Ok::<(Seq<(Seq<char>, EntryV)>, Seq<u8>), DecodeError>(
        (Seq::<(Seq<char>, EntryV)>::empty(), rest),
    ));
    assert(sp_scalar_pairs(b2, 1) == Ok::<(Seq<(Seq<char>, EntryV)>, Seq<u8>), DecodeError>(
        (t2, rest),
    ));
    assert(sp_scalar_pairs(b1, 2) == Ok::<(Seq<(Seq<char>, EntryV)>, Seq<u8>), DecodeError>(
        (t1, rest),
    ));
    assert(sp_scalar_pairs(b0, 3) == Ok::<(Seq<(Seq<char>, EntryV)>, Seq<u8>), DecodeError>(
        (t0, rest),
    ));
    assert(t0 =~= canonical_person_pairs(p));
    lemma_person_canonical_pairs(p);
}

proof fn lemma_sp_persons_step(p0: PersonV, ps: Seq<PersonV>, rest: Seq<u8>)
    requires
        person_bounded(p0),
        sp_persons(ser_people_from(ps) + rest, ps.len() as nat) == Ok::<
            (Seq<PersonV>, Seq<u8>),
            DecodeError,
        >((ps, rest)),
    ensures
        sp_persons(ser_people_from(seq![p0] + ps) + rest, (seq![p0] + ps).len() as nat) == Ok::<
            (Seq<PersonV>, Seq<u8>),
            DecodeError,
        >((seq![p0] + ps, rest)),
{
    let s = seq![p0] + ps;
    assert(s.len() == ps.len() + 1);
    assert(s[0] == p0);
    assert(s.drop_first() =~= ps);
    assert(ser_people_from(s) == ser_person(p0) + ser_people_from(ps));
    vstd::seq_lib::lemma_concat_associative(ser_person(p0), ser_people_from(ps), rest);
    assert(ser_people_from(s) + rest == ser_person(p0) + (ser_people_from(ps) + rest));
    lemma_sp_person(p0, ser_people_from(ps) + rest);
    assert(seq![s[0]] + s.drop_first() =~= s);
}

pub proof fn lemma_sp_persons(s: Seq<PersonV>, rest: Seq<u8>)
    requires
        people_bounded(s),
    ensures
        sp_persons(ser_people_from(s) + rest, s.len() as nat) == Ok::<
            (Seq<PersonV>, Seq<u8>),
            DecodeError,
        >((s, rest)),
    decreases s.len(),
{
    if s.len() == 0 {
        assert(s =~= Seq::<PersonV>::empty());
        assert(ser_people_from(s) + rest =~= rest);
    } else {
        lemma_sp_persons(s.drop_first(), rest);
        lemma_sp_persons_step(s[0], s.drop_first(), rest);
        let s2 = seq![s[0]] + s.drop_first();
        assert(s2 =~= s);
        assert(sp_persons(ser_people_from(s) + rest, s.len() as nat) == Ok::<
            (Seq<PersonV>, Seq<u8>),
            DecodeError,
        >((s, rest)));
    }
}

proof fn lemma_sp_pair_people(name: Seq<char>, s: Seq<PersonV>, rest: Seq<u8>)
    requires
        encode_utf8(name).len() <= u64::MAX,
        s.len() <= u64::MAX,
        people_bounded(s),
    ensures
        sp_doc_pair(ser_pair_people(name, s) + rest) == Ok::<
            ((Seq<char>, EntryV), Seq<u8>),
            DecodeError,
        >(((name, EntryV::People(s)), rest)),
{
    let t1 = (seq![TAG_PEOPLE] + ser_people_block(s)) + rest;
    assert(ser_pair_people(name, s) + rest =~= ser_str(false, name) + t1);
    crate::wire::lemma_sp_str(false, name, t1);
    assert(t1 =~= seq![TAG_PEOPLE] + (ser_people_block(s) + rest));
    crate::wire::lemma_sp_u8(TAG_PEOPLE, ser_people_block(s) + rest);
    assert(ser_people_block(s) + rest =~= ser_u64(false, s.len() as u64) + (ser_people_from(s)
        + rest));
    crate::wire::lemma_sp_u64(false, s.len() as u64, ser_people_from(s) + rest);
    lemma_sp_persons(s, rest);
}

/// Parsing a document map written in declared order yields the document.
pub proof fn lemma_sp_document(d: DocumentV, rest: Seq<u8>)
    requires
        document_bounded(d),
    ensures
        sp_document(ser_document(d) + rest) == Ok::<(DocumentV, Seq<u8>), DecodeError>((d, rest)),
{
    lemma_field_names();
    crate::fixed_wire::lemma_people_bounded_from_forall(d.authors);
    let b3 = ser_pair_str("content"@, d.content) + rest;
    let b2 = ser_pair_people("authors"@, d.authors) + b3;
    let b1 = ser_pair_str("name"@, d.name) + b2;
    let b0 = ser_pair_u64("id"@, d.id) + b1;
    assert(ser_document(d) + rest =~= seq![4u8] + b0);
    crate::wire::lemma_sp_u8(4u8, b0);
    lemma_sp_scalar_pair_u64("id"@, d.id, b1);
    lemma_sp_scalar_pair_str("name"@, d.name, b2);
    lemma_sp_pair_people("authors"@, d.authors, b3);
    lemma_sp_scalar_pair_str("content"@, d.content, rest);
    let t3 = seq![("content"@, EntryV::Text(d.content))] + Seq::<(Seq<char>, EntryV)>::empty();
    let t2 = seq![("authors"@, EntryV::People(d.authors))] + t3;
    let t1 = seq![("name"@, EntryV::Text(d.name))] + t2;
    let t0 = seq![("id"@, EntryV::Uint(d.id))] + t1;
    assert(sp_doc_pairs(rest, 0) == Ok::<(Seq<(Seq<char>, EntryV)>, Seq<u8>), DecodeError>(
        (Seq::<(Seq<char>, EntryV)>::empty(), rest),
    ));
    assert(sp_doc_pairs(b3, 1) == Ok::<(Seq<(Seq<char>, EntryV)>, Seq<u8>), DecodeError>(
        (t3, rest),
    ));
    assert(sp_doc_pairs(b2, 2) == Ok::<(Seq<(Seq<char>, EntryV)>, Seq<u8>), DecodeError>(
        (t2, rest),
    ));
    assert(sp_doc_pairs(b1, 3) == Ok::<(Seq<(Seq<char>, EntryV)>, Seq<u8>), DecodeError>(
        (t1, rest),
    ));
    assert(sp_doc_pairs(b0, 4) == Ok::<(Seq<(Seq<char>, EntryV)>, Seq<u8>), DecodeError>(
        (t0, rest),
    ));
    assert(t0 =~= canonical_document_pairs(d));
    lemma_document_canonical_pairs(d);
}

/// Round trip: decoding this backend's encoding of any representable
/// document yields exactly that document.
pub proof fn lemma_round_trip(d: DocumentV)
    requires
        document_bounded(d),
    ensures
        spec_decode(spec_encode(d)) == Ok::<DocumentV, DecodeError>(d),
{
    lemma_sp_document(d, Seq::empty());
    assert(ser_document(d) + Seq::<u8>::empty() =~= ser_document(d));
}

/// Trailing input is fatal in this backend too.
pub proof fn lemma_trailing_input(d: DocumentV, extra: Seq<u8>)
    requires
        document_bounded(d),
        extra.len() > 0,
    ensures
        spec_decode(ser_document(d) + extra) == Err::<DocumentV, DecodeError>(
            DecodeError::TrailingInput,
        ),
{
    lemma_sp_document(d, extra);
}

/// Encoded size grows monotonically with the content payload.
pub proof fn lemma_size_monotone(a: DocumentV, b: DocumentV)
    requires
        a.id == b.id,
        a.name == b.name,
        a.authors == b.authors,
        encode_utf8(a.content).len() <= encode_utf8(b.content).len(),
    ensures
        ser_document(a).len() <= ser_document(b).len(),
{
    lemma_ser_str_len(false, a.content);
    lemma_ser_str_len(false, b.content);
}

// ------------------------------------------------------------------
// Executable encode: the key-based cursor drives the writer
// ------------------------------------------------------------------

fn write_person_map(out: &mut Vec<u8>, p: &Person)
    ensures
        final(out)@ == old(out)@ + ser_person(p@),
{
    write_u8(out, 3);
    let mut cur = PersonCursor::new(p);
    let mut going = true;
    proof {
        assert(out@ =~= old(out)@ + seq![3u8] + ser_person_pairs_upto(p@, 0));
    }
    while going
        invariant
            cur.record == p,
            cur.pos <= 3,
            going ==> out@ == old(out)@ + seq![3u8] + ser_person_pairs_upto(p@, cur.pos as int),
            !going ==> cur.pos == 3 && out@ == old(out)@ + seq![3u8] + ser_person_pairs_upto(
                p@,
                3,
            ),
        decreases 3 - cur.pos, (if going { 1int } else { 0int }),
    {
        let ghost pos0 = cur.pos as int;
        match cur.next() {
            Some(fe) => {
                let (f, e) = fe;
                write_str(out, false, f.name());
                match e {
                    Entry::Uint(x) => {
                        crate::tagged_wire::write_tagged_u64(out, x);
                        proof {
                            assert(pos0 == 0);
                            assert(f.spec_name() == "id"@);
                            assert(x == p@.id);
                            assert(out@ =~= old(out)@ + seq![3u8] + ser_person_pairs_upto(p@, 1));
                        }
                    },
                    Entry::Text(s) => {
                        crate::tagged_wire::write_tagged_str(out, s.as_str());
                        proof {
                            if pos0 == 1 {
                                assert(f.spec_name() == "name"@);
                                assert(s@ == p@.name);
                                assert(out@ =~= old(out)@ + seq![3u8] + ser_person_pairs_upto(
                                    p@,
                                    2,
                                ));
                            } else {
                                assert(pos0 == 2);
                                assert(f.spec_name() == "email"@);
                                assert(s@ == p@.email);
                                assert(out@ =~= old(out)@ + seq![3u8] + ser_person_pairs_upto(
                                    p@,
                                    3,
                                ));
                            }
                        }
                    },
                    Entry::People(_) => {
                        proof {
                            assert(false);
                        }
                    },
                }
            },
            None => {
                going = false;
            },
        }
    }
}

proof fn lemma_keyed_people_from_snoc(s: Seq<PersonV>, j: int)
    requires
        0 <= j < s.len(),
    ensures
        ser_people_from(s.take(j + 1)) == ser_people_from(s.take(j)) + ser_person(s[j]),
    decreases j,
{
    if j == 0 {
        assert(s.take(1) =~= seq![s[0]]);
        assert(seq![s[0]].drop_first() =~= Seq::<PersonV>::empty());
        assert(ser_people_from(Seq::<PersonV>::empty()) == Seq::<u8>::empty());
        assert(seq![s[0]][0] == s[0]);
        assert(ser_people_from(seq![s[0]]) == ser_person(s[0]) + Seq::<u8>::empty());
        assert(ser_person(s[0]) + Seq::<u8>::empty() =~= ser_person(s[0]));
        assert(s.take(0) =~= Seq::<PersonV>::empty());
    } else {
        let t = s.drop_first();
        lemma_keyed_people_from_snoc(t, j - 1);
        assert(s.take(j + 1).len() == j + 1);
        assert(s.take(j).len() == j);
        assert(s.take(j + 1).drop_first() =~= t.take(j));
        assert(s.take(j).drop_first() =~= t.take(j - 1));
        assert(ser_people_from(s.take(j + 1)) == ser_person(s.take(j + 1)[0]) + ser_people_from(
            s.take(j + 1).drop_first(),
        ));
        assert(ser_people_from(s.take(j)) == ser_person(s.take(j)[0]) + ser_people_from(
            s.take(j).drop_first(),
        ));
        assert(t[j - 1] == s[j]);
        assert(ser_people_from(s.take(j + 1)) == ser_person(s[0]) + (ser_people_from(
            t.take(j - 1),
        ) + ser_person(s[j])));
        assert(ser_person(s[0]) + (ser_people_from(t.take(j - 1)) + ser_person(s[j])) =~= (
        ser_person(s[0]) + ser_people_from(t.take(j - 1))) + ser_person(s[j]));
    }
}

fn write_people_block(out: &mut Vec<u8>, v: &Vec<Person>)
    ensures
        final(out)@ == old(out)@ + ser_people_block(people_view(v@)),
{
    let ghost all = people_view(v@);
    write_u64(out, false, v.len() as u64);
    let mut j: usize = 0;
    proof {
        assert(all.take(0) =~= Seq::<PersonV>::empty());
    }
    while j < v.len()
        invariant
            j <= v@.len(),
            all == people_view(v@),
            out@ == old(out)@ + ser_u64(false, v@.len() as u64) + ser_people_from(
                all.take(j as int),
            ),
        decreases v@.len() - j,
    {
        write_person_map(out, &v[j]);
        proof {
            lemma_keyed_people_from_snoc(all, j as int);
            assert(all[j as int] == v@[j as int]@);
        }
        j = j + 1;
    }
    proof {
        assert(all.take(v@.len() as int) =~= all);
        assert(old(out)@ + ser_u64(false, v@.len() as u64) + ser_people_from(all) =~= old(out)@
            + ser_people_block(all));
    }
}

fn write_document_map(out: &mut Vec<u8>, d: &Document)
    ensures
        final(out)@ == old(out)@ + ser_document(d@),
{
    write_u8(out, 4);
    let mut cur = DocumentCursor::new(d);
    let mut going = true;
    proof {
        assert(out@ =~= old(out)@ + seq![4u8] + ser_doc_pairs_upto(d@, 0));
    }
    while going
        invariant
            cur.record == d,
            cur.pos <= 4,
            going ==> out@ == old(out)@ + seq![4u8] + ser_doc_pairs_upto(d@, cur.pos as int),
            !going ==> cur.pos == 4 && out@ == old(out)@ + seq![4u8] + ser_doc_pairs_upto(d@, 4),
        decreases 4 - cur.pos, (if going { 1int } else { 0int }),
    {
        let ghost pos0 = cur.pos as int;
        match cur.next() {
            Some(fe) => {
                let (f, e) = fe;
                write_str(out, false, f.name());
                match e {
                    Entry::Uint(x) => {
                        crate::tagged_wire::write_tagged_u64(out, x);
                        proof {
                            assert(pos0 == 0);
                            assert(f.spec_name() == "id"@);
                            assert(x == d@.id);
                            assert(out@ =~= old(out)@ + seq![4u8] + ser_doc_pairs_upto(d@, 1));
                        }
                    },
                    Entry::Text(s) => {
                        crate::tagged_wire::write_tagged_str(out, s.as_str());
                        proof {
                            if pos0 == 1 {
                                assert(f.spec_name() == "name"@);
                                assert(s@ == d@.name);
                                assert(out@ =~= old(out)@ + seq![4u8] + ser_doc_pairs_upto(
                                    d@,
                                    2,
                                ));
                            } else {
                                assert(pos0 == 3);
                                assert(f.spec_name() == "content"@);
                                assert(s@ == d@.content);
                                assert(out@ =~= old(out)@ + seq![4u8] + ser_doc_pairs_upto(
                                    d@,
                                    4,
                                ));
                            }
                        }
                    },
                    Entry::People(ps) => {
                        write_u8(out, TAG_PEOPLE);
                        write_people_block(out, &ps);
                        proof {
                            assert(pos0 == 2);
                            assert(f.spec_name() == "authors"@);
                            assert(people_view(ps@) == d@.authors);
                            assert(out@ =~= old(out)@ + seq![4u8] + ser_doc_pairs_upto(d@, 3));
                        }
                    },
                }
            },
            None => {
                going = false;
            },
        }
    }
}

/// Encode a document through the key-based protocol's cursor into the named
/// tagged envelope.
pub fn encode(d: &Document) -> (r: Vec<u8>)
    ensures
        r@ == spec_encode(d@),
{
    let mut out: Vec<u8> = Vec::new();
    write_document_map(&mut out, d);
    proof {
        assert(Seq::<u8>::empty() + ser_document(d@) =~= ser_document(d@));
    }
    out
}

// ------------------------------------------------------------------
// Executable decode: parsed pairs feed the key-based accumulation
// ------------------------------------------------------------------

fn parse_scalar_value(bytes: &[u8], i: &mut usize) -> (r: Result<Entry, DecodeError>)
    requires
        *old(i) <= bytes@.len(),
    ensures
        match r {
            Ok(e) => {
                &&& *final(i) <= bytes@.len()
                &&& sp_scalar_value(bytes@.skip(*old(i) as int)) == Ok::<
                    (EntryV, Seq<u8>),
                    DecodeError,
                >((e@, bytes@.skip(*final(i) as int)))
            },
            Err(e) => sp_scalar_value(bytes@.skip(*old(i) as int)) == Err::<
                (EntryV, Seq<u8>),
                DecodeError,
            >(e),
        },
{
    let t = match parse_u8(bytes, i) {
        Ok(t) => t,
        Err(e) => {
            return Err(e);
        },
    };
    if t == TAG_UINT {
        match parse_u64(false, bytes, i) {
            Ok(x) => Ok(Entry::Uint(x)),
            Err(e) => Err(e),
        }
    } else if t == TAG_TEXT {
        match parse_str(false, bytes, i) {
            Ok(s) => Ok(Entry::Text(s)),
            Err(e) => Err(e),
        }
    } else {
        Err(DecodeError::Malformed)
    }
}

fn parse_scalar_pair(bytes: &[u8], i: &mut usize) -> (r: Result<(String, Entry), DecodeError>)
    requires
        *old(i) <= bytes@.len(),
    ensures
        match r {
            Ok(kv) => {
                &&& *final(i) <= bytes@.len()
                &&& sp_scalar_pair(bytes@.skip(*old(i) as int)) == Ok::<
                    ((Seq<char>, EntryV), Seq<u8>),
                    DecodeError,
                >(((kv.0@, kv.1@), bytes@.skip(*final(i) as int)))
            },
            Err(e) => sp_scalar_pair(bytes@.skip(*old(i) as int)) == Err::<
                ((Seq<char>, EntryV), Seq<u8>),
                DecodeError,
            >(e),
        },
{
    let k = match parse_str(false, bytes, i) {
        Ok(k) => k,
        Err(e) => {
            return Err(e);
        },
    };
    match parse_scalar_value(bytes, i) {
        Ok(v) => Ok((k, v)),
        Err(e) => Err(e),
    }
}

#[verifier::rlimit(80)]
fn parse_person_map(bytes: &[u8], i: &mut usize) -> (r: Result<Person, DecodeError>)
    requires
        *old(i) <= bytes@.len(),
    ensures
        match r {
            Ok(p) => {
                &&& *final(i) <= bytes@.len()
                &&& sp_person(bytes@.skip(*old(i) as int)) == Ok::<
                    (PersonV, Seq<u8>),
                    DecodeError,
                >((p@, bytes@.skip(*final(i) as int)))
            },
            Err(e) => sp_person(bytes@.skip(*old(i) as int)) == Err::<
                (PersonV, Seq<u8>),
                DecodeError,
            >(e),
        },
{
    let n = match parse_u8(bytes, i) {
        Ok(n) => n,
        Err(e) => {
            return Err(e);
        },
    };
    let ghost start = *i as int;
    let mut pairs: Vec<(String, Entry)> = Vec::new();
    let mut j: u8 = 0;
    proof {
        assert(pairs_view(pairs@) =~= Seq::<(Seq<char>, EntryV)>::empty());
        let x = sp_scalar_pairs(bytes@.skip(start), n as nat);
        if x is Ok {
            assert(pairs_view(pairs@) + x->Ok_0.0 =~= x->Ok_0.0);
        }
    }
    while j < n
        invariant
            j <= n,
            *i <= bytes@.len(),
            sp_u8(bytes@.skip(*old(i) as int)) == Ok::<(u8, Seq<u8>), DecodeError>(
                (n, bytes@.skip(start)),
            ),
            sp_scalar_pairs(bytes@.skip(start), n as nat) == (match sp_scalar_pairs(
                bytes@.skip(*i as int),
                (n - j) as nat,
            ) {
                Ok((prs, r)) => Ok::<(Seq<(Seq<char>, EntryV)>, Seq<u8>), DecodeError>(
                    (pairs_view(pairs@) + prs, r),
                ),
                Err(e) => Err::<(Seq<(Seq<char>, EntryV)>, Seq<u8>), DecodeError>(e),
            }),
        decreases n - j,
    {
        let ghost i0 = *i as int;
        let ghost v0 = pairs_view(pairs@);
        let kv = match parse_scalar_pair(bytes, i) {
            Ok(kv) => kv,
            Err(e) => {
                proof {
                    assert(sp_scalar_pairs(bytes@.skip(i0), (n - j) as nat) == Err::<
                        (Seq<(Seq<char>, EntryV)>, Seq<u8>),
                        DecodeError,
                    >(e));
                }
                return Err(e);
            },
        };
        let ghost kvv = (kv.0@, kv.1@);
        pairs.push(kv);
        proof {
            assert(pairs_view(pairs@) =~= v0 + seq![kvv]);
            let x = sp_scalar_pairs(bytes@.skip(*i as int), (n - (j + 1)) as nat);
            if x is Ok {
                assert(v0 + (seq![kvv] + x->Ok_0.0) =~= (v0 + seq![kvv]) + x->Ok_0.0);
            }
        }
        j = j + 1;
    }
    proof {
        assert(sp_scalar_pairs(bytes@.skip(*i as int), (n - j) as nat) == Ok::<
            (Seq<(Seq<char>, EntryV)>, Seq<u8>),
            DecodeError,
        >((Seq::<(Seq<char>, EntryV)>::empty(), bytes@.skip(*i as int))));
        assert(pairs_view(pairs@) + Seq::<(Seq<char>, EntryV)>::empty() =~= pairs_view(pairs@));
        assert(sp_scalar_pairs(bytes@.skip(start), n as nat) == Ok::<
            (Seq<(Seq<char>, EntryV)>, Seq<u8>),
            DecodeError,
        >((pairs_view(pairs@), bytes@.skip(*i as int))));
    }
    match person_from_pairs(&pairs) {
        Ok(p) => Ok(p),
        Err(e) => Err(e),
    }
}

#[verifier::rlimit(80)]
fn parse_persons(bytes: &[u8], i: &mut usize, n: u64) -> (r: Result<Vec<Person>, DecodeError>)
    requires
        *old(i) <= bytes@.len(),
    ensures
        match r {
            Ok(v) => {
                &&& *final(i) <= bytes@.len()
                &&& sp_persons(bytes@.skip(*old(i) as int), n as nat) == Ok::<
                    (Seq<PersonV>, Seq<u8>),
                    DecodeError,
                >((people_view(v@), bytes@.skip(*final(i) as int)))
            },
            Err(e) => sp_persons(bytes@.skip(*old(i) as int), n as nat) == Err::<
                (Seq<PersonV>, Seq<u8>),
                DecodeError,
            >(e),
        },
{
    let ghost start = *i as int;
    let mut v: Vec<Person> = Vec::new();
    let mut j: u64 = 0;
    proof {
        assert(people_view(v@) =~= Seq::<PersonV>::empty());
        let x = sp_persons(bytes@.skip(start), n as nat);
        if x is Ok {
            assert(people_view(v@) + x->Ok_0.0 =~= x->Ok_0.0);
        }
    }
    while j < n
        invariant
            j <= n,
            *i <= bytes@.len(),
            start == *old(i) as int,
            sp_persons(bytes@.skip(start), n as nat) == (match sp_persons(
                bytes@.skip(*i as int),
                (n - j) as nat,
            ) {
                Ok((ps, r)) => Ok::<(Seq<PersonV>, Seq<u8>), DecodeError>(
                    (people_view(v@) + ps, r),
                ),
                Err(e) => Err::<(Seq<PersonV>, Seq<u8>), DecodeError>(e),
            }),
        decreases n - j,
    {
        let ghost i0 = *i as int;
        let ghost v0 = people_view(v@);
        let p = match parse_person_map(bytes, i) {
            Ok(p) => p,
            Err(e) => {
                proof {
                    assert(sp_persons(bytes@.skip(i0), (n - j) as nat) == Err::<
                        (Seq<PersonV>, Seq<u8>),
                        DecodeError,
                    >(e));
                }
                return Err(e);
            },
        };
        v.push(p);
        proof {
            assert(people_view(v@) =~= v0 + seq![p@]);
            let x = sp_persons(bytes@.skip(*i as int), (n - (j + 1)) as nat);
            if x is Ok {
                assert(v0 + (seq![p@] + x->Ok_0.0) =~= (v0 + seq![p@]) + x->Ok_0.0);
            }
        }
        j = j + 1;
    }
    proof {
        assert(sp_persons(bytes@.skip(*i as int), (n - j) as nat) == Ok::<
            (Seq<PersonV>, Seq<u8>),
            DecodeError,
        >((Seq::<PersonV>::empty(), bytes@.skip(*i as int))));
        assert(people_view(v@) + Seq::<PersonV>::empty() =~= people_view(v@));
    }
    Ok(v)
}

fn parse_doc_value(bytes: &[u8], i: &mut usize) -> (r: Result<Entry, DecodeError>)
    requires
        *old(i) <= bytes@.len(),
    ensures
        match r {
            Ok(e) => {
                &&& *final(i) <= bytes@.len()
                &&& sp_doc_value(bytes@.skip(*old(i) as int)) == Ok::<
                    (EntryV, Seq<u8>),
                    DecodeError,
                >((e@, bytes@.skip(*final(i) as int)))
            },
            Err(e) => sp_doc_value(bytes@.skip(*old(i) as int)) == Err::<
                (EntryV, Seq<u8>),
                DecodeError,
            >(e),
        },
{
    let t = match parse_u8(bytes, i) {
        Ok(t) => t,
        Err(e) => {
            return Err(e);
        },
    };
    if t == TAG_UINT {
        match parse_u64(false, bytes, i) {
            Ok(x) => Ok(Entry::Uint(x)),
            Err(e) => Err(e),
        }
    } else if t == TAG_TEXT {
        match parse_str(false, bytes, i) {
            Ok(s) => Ok(Entry::Text(s)),
            Err(e) => Err(e),
        }
    } else if t == TAG_PEOPLE {
        let n = match parse_u64(false, bytes, i) {
            Ok(n) => n,
            Err(e) => {
                return Err(e);
            },
        };
        match parse_persons(bytes, i, n) {
            Ok(v) => Ok(Entry::People(v)),
            Err(e) => Err(e),
        }
    } else {
        Err(DecodeError::Malformed)
    }
}

fn parse_doc_pair(bytes: &[u8], i: &mut usize) -> (r: Result<(String, Entry), DecodeError>)
    requires
        *old(i) <= bytes@.len(),
    ensures
        match r {
            Ok(kv) => {
                &&& *final(i) <= bytes@.len()
                &&& sp_doc_pair(bytes@.skip(*old(i) as int)) == Ok::<
                    ((Seq<char>, EntryV), Seq<u8>),
                    DecodeError,
                >(((kv.0@, kv.1@), bytes@.skip(*final(i) as int)))
            },
            Err(e) => sp_doc_pair(bytes@.skip(*old(i) as int)) == Err::<
                ((Seq<char>, EntryV), Seq<u8>),
                DecodeError,
            >(e),
        },
{
    let k = match parse_str(false, bytes, i) {
        Ok(k) => k,
        Err(e) => {
            return Err(e);
        },
    };
    match parse_doc_value(bytes, i) {
        Ok(v) => Ok((k, v)),
        Err(e) => Err(e),
    }
}

fn parse_document(bytes: &[u8], i: &mut usize) -> (r: Result<Document, DecodeError>)
    requires
        *old(i) <= bytes@.len(),
    ensures
        match r {
            Ok(d) => {
                &&& *final(i) <= bytes@.len()
                &&& sp_document(bytes@.skip(*old(i) as int)) == Ok::<
                    (DocumentV, Seq<u8>),
                    DecodeError,
                >((d@, bytes@.skip(*final(i) as int)))
            },
            Err(e) => sp_document(bytes@.skip(*old(i) as int)) == Err::<
                (DocumentV, Seq<u8>),
                DecodeError,
            >(e),
        },
{
    let n = match parse_u8(bytes, i) {
        Ok(n) => n,
        Err(e) => {
            return Err(e);
        },
    };
    let ghost start = *i as int;
    let mut pairs: Vec<(String, Entry)> = Vec::new();
    let mut j: u8 = 0;
    proof {
        assert(pairs_view(pairs@) =~= Seq::<(Seq<char>, EntryV)>::empty());
        let x = sp_doc_pairs(bytes@.skip(start), n as nat);
        if x is Ok {
            assert(pairs_view(pairs@) + x->Ok_0.0 =~= x->Ok_0.0);
        }
    }
    while j < n
        invariant
            j <= n,
            *i <= bytes@.len(),
            sp_u8(bytes@.skip(*old(i) as int)) == Ok::<(u8, Seq<u8>), DecodeError>(
                (n, bytes@.skip(start)),
            ),
            sp_doc_pairs(bytes@.skip(start), n as nat) == (match sp_doc_pairs(
                bytes@.skip(*i as int),
                (n - j) as nat,
            ) {
                Ok((prs, r)) => Ok::<(Seq<(Seq<char>, EntryV)>, Seq<u8>), DecodeError>(
                    (pairs_view(pairs@) + prs, r),
                ),
                Err(e) => Err::<(Seq<(Seq<char>, EntryV)>, Seq<u8>), DecodeError>(e),
            }),
        decreases n - j,
    {
        let ghost i0 = *i as int;
        let ghost v0 = pairs_view(pairs@);
        let kv = match parse_doc_pair(bytes, i) {
            Ok(kv) => kv,
            Err(e) => {
                proof {
                    assert(sp_doc_pairs(bytes@.skip(i0), (n - j) as nat) == Err::<
                        (Seq<(Seq<char>, EntryV)>, Seq<u8>),
                        DecodeError,
                    >(e));
                }
                return Err(e);
            },
        };
        let ghost kvv = (kv.0@, kv.1@);
        pairs.push(kv);
        proof {
            assert(pairs_view(pairs@) =~= v0 + seq![kvv]);
            let x = sp_doc_pairs(bytes@.skip(*i as int), (n - (j + 1)) as nat);
            if x is Ok {
                assert(v0 + (seq![kvv] + x->Ok_0.0) =~= (v0 + seq![kvv]) + x->Ok_0.0);
            }
        }
        j = j + 1;
    }
    proof {
        assert(sp_doc_pairs(bytes@.skip(*i as int), (n - j) as nat) == Ok::<
            (Seq<(Seq<char>, EntryV)>, Seq<u8>),
            DecodeError,
        >((Seq::<(Seq<char>, EntryV)>::empty(), bytes@.skip(*i as int))));
        assert(pairs_view(pairs@) + Seq::<(Seq<char>, EntryV)>::empty() =~= pairs_view(pairs@));
        assert(sp_doc_pairs(bytes@.skip(start), n as nat) == Ok::<
            (Seq<(Seq<char>, EntryV)>, Seq<u8>),
            DecodeError,
        >((pairs_view(pairs@), bytes@.skip(*i as int))));
    }
    match document_from_pairs(&pairs) {
        Ok(d) => Ok(d),
        Err(e) => Err(e),
    }
}

/// Decode one document from the whole buffer, rejecting trailing input:
/// the strict strictness policy.
pub fn decode(bytes: &[u8]) -> (r: Result<Document, DecodeError>)
    ensures
        match r {
            Ok(d) => spec_decode(bytes@) == Ok::<DocumentV, DecodeError>(d@),
            Err(e) => spec_decode(bytes@) == Err::<DocumentV, DecodeError>(e),
        },
{
    let mut i: usize = 0;
    proof {
        assert(bytes@.skip(0) =~= bytes@);
    }
    let d = match parse_document(bytes, &mut i) {
        Ok(d) => d,
        Err(e) => {
            return Err(e);
        },
    };
    if i < bytes.len() {
        return Err(DecodeError::TrailingInput);
    }
    proof {
        assert(bytes@.skip(i as int).len() == 0);
    }
    Ok(d)
}

/// Decode one document from the front of the buffer, reporting how many
/// bytes it took and leaving any remaining input to the caller: the lenient
/// strictness policy.
pub fn decode_prefix(bytes: &[u8]) -> (r: Result<(Document, usize), DecodeError>)
    ensures
        match r {
            Ok(du) => du.1 <= bytes@.len() && sp_document(bytes@) == Ok::<
                (DocumentV, Seq<u8>),
                DecodeError,
            >((du.0@, bytes@.skip(du.1 as int))),
            Err(e) => sp_document(bytes@) == Err::<(DocumentV, Seq<u8>), DecodeError>(e),
        },
{
    let mut i: usize = 0;
    proof {
        assert(bytes@.skip(0) =~= bytes@);
    }
    match parse_document(bytes, &mut i) {
        Ok(d) => Ok((d, i)),
        Err(e) => Err(e),
    }
}

} // verus!
