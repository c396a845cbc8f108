//! The key-based codec protocol: on the encode side a one-shot sequential
//! cursor yields `(field, value)` pairs until it signals completion; on the
//! decode side raw field keys are resolved through the closed name set and
//! accumulated into a record, in whatever order the backend presents them.

use crate::entry::{clone_entry, DecodeError, Entry, EntryV};
use crate::fields::{
    document_field_from_name, document_field_of_name, person_field_from_name,
    person_field_of_name, DocumentField, PersonField,
};
use crate::index_codec::{document_field_entries, person_field_entries};
use crate::types::{Document, DocumentV, Person, PersonV};
use vstd::prelude::*;

verus! {

// ------------------------------------------------------------------
// Encode side: sequential field cursors
// ------------------------------------------------------------------

/// A pull-based traversal of a person's fields: each call to [`Self::next`]
/// yields the next field in declared order, then signals completion.
pub struct PersonCursor<'a> {
    pub record: &'a Person,
    pub pos: usize,
}

impl<'a> PersonCursor<'a> {
    pub fn new(record: &'a Person) -> (r: Self)
        ensures
            r.record == record,
            r.pos == 0,
    {
        PersonCursor { record, pos: 0 }
    }

    pub fn next(&mut self) -> (r: Option<(PersonField, Entry)>)
        ensures
            final(self).record == old(self).record,
            old(self).pos < 3 ==> {
                &&& final(self).pos == old(self).pos + 1
                &&& r matches Some(fe) && fe.0.spec_ordinal() == old(self).pos && fe.1@
                    == person_field_entries(old(self).record@)[old(self).pos as int]
            },
            old(self).pos >= 3 ==> r is None && final(self).pos == old(self).pos,
    {
        if self.pos == 0 {
            self.pos = 1;
            Some((PersonField::Id, Entry::Uint(self.record.id)))
        } else if self.pos == 1 {
            self.pos = 2;
            Some((PersonField::Name, Entry::Text(self.record.name.clone())))
        } else if self.pos == 2 {
            self.pos = 3;
            Some((PersonField::Email, Entry::Text(self.record.email.clone())))
        } else {
            None
        }
    }
}

/// A pull-based traversal of a document's fields.
pub struct DocumentCursor<'a> {
    pub record: &'a Document,
    pub pos: usize,
}

impl<'a> DocumentCursor<'a> {
    pub fn new(record: &'a Document) -> (r: Self)
        ensures
            r.record == record,
            r.pos == 0,
    {
        DocumentCursor { record, pos: 0 }
    }

    pub fn next(&mut self) -> (r: Option<(DocumentField, Entry)>)
        ensures
            final(self).record == old(self).record,
            old(self).pos < 4 ==> {
                &&& final(self).pos == old(self).pos + 1
                &&& r matches Some(fe) && fe.0.spec_ordinal() == old(self).pos && fe.1@
                    == document_field_entries(old(self).record@)[old(self).pos as int]
            },
            old(self).pos >= 4 ==> r is None && final(self).pos == old(self).pos,
    {
        if self.pos == 0 {
            self.pos = 1;
            Some((DocumentField::Id, Entry::Uint(self.record.id)))
        } else if self.pos == 1 {
            self.pos = 2;
            Some((DocumentField::Name, Entry::Text(self.record.name.clone())))
        } else if self.pos == 2 {
            self.pos = 3;
            Some(
                (
                    DocumentField::Authors,
                    Entry::People(crate::types::clone_people(&self.record.authors)),
                ),
            )
        } else if self.pos == 3 {
            self.pos = 4;
            Some((DocumentField::Content, Entry::Text(self.record.content.clone())))
        } else {
            None
        }
    }
}

// ------------------------------------------------------------------
// Decode side: key resolution and field accumulation
// ------------------------------------------------------------------

/// The value kind a person field requires.
pub open spec fn person_value_ok(f: PersonField, v: EntryV) -> bool {
    match f {
        PersonField::Id => v is Uint,
        PersonField::Name => v is Text,
        PersonField::Email => v is Text,
    }
}

/// The value kind a document field requires.
pub open spec fn document_value_ok(f: DocumentField, v: EntryV) -> bool {
    match f {
        DocumentField::Id => v is Uint,
        DocumentField::Name => v is Text,
        DocumentField::Authors => v is People,
        DocumentField::Content => v is Text,
    }
}

/// A key/value pair is well formed when its key resolves and its value has
/// the kind that field requires.
pub open spec fn person_pair_wf(key: Seq<char>, v: EntryV) -> bool {
    match person_field_of_name(key) {
        Some(f) => person_value_ok(f, v),
        None => false,
    }
}

pub open spec fn document_pair_wf(key: Seq<char>, v: EntryV) -> bool {
    match document_field_of_name(key) {
        Some(f) => document_value_ok(f, v),
        None => false,
    }
}

pub open spec fn person_pairs_wf(pairs: Seq<(Seq<char>, EntryV)>) -> bool {
    forall|j: int| 0 <= j < pairs.len() ==> person_pair_wf((#[trigger] pairs[j]).0, pairs[j].1)
}

pub open spec fn document_pairs_wf(pairs: Seq<(Seq<char>, EntryV)>) -> bool {
    forall|j: int| 0 <= j < pairs.len() ==> document_pair_wf((#[trigger] pairs[j]).0, pairs[j].1)
}

/// Whether some pair's key resolves to field `f`.
pub open spec fn person_key_present(pairs: Seq<(Seq<char>, EntryV)>, f: PersonField) -> bool {
    exists|j: int| 0 <= j < pairs.len() && person_field_of_name((#[trigger] pairs[j]).0) == Some(f)
}

pub open spec fn document_key_present(pairs: Seq<(Seq<char>, EntryV)>, f: DocumentField) -> bool {
    exists|j: int|
        0 <= j < pairs.len() && document_field_of_name((#[trigger] pairs[j]).0) == Some(f)
}

/// The value of the last pair whose key resolves to `f`; meaningful only
/// when such a pair is present.
pub open spec fn person_field_value(pairs: Seq<(Seq<char>, EntryV)>, f: PersonField) -> EntryV
    decreases pairs.len(),
{
    if pairs.len() == 0 {
        EntryV::Uint(0)
    } else if person_field_of_name(pairs[0].0) == Some(f) && !person_key_present(
        pairs.drop_first(),
        f,
    ) {
        pairs[0].1
    } else {
        person_field_value(pairs.drop_first(), f)
    }
}

pub open spec fn document_field_value(pairs: Seq<(Seq<char>, EntryV)>, f: DocumentField) -> EntryV
    decreases pairs.len(),
{
    if pairs.len() == 0 {
        EntryV::Uint(0)
    } else if document_field_of_name(pairs[0].0) == Some(f) && !document_key_present(
        pairs.drop_first(),
        f,
    ) {
        pairs[0].1
    } else {
        document_field_value(pairs.drop_first(), f)
    }
}

/// Accumulation state while walking a person's key/value pairs.
#[verifier::ext_equal]
pub struct PersonAcc {
    pub rec: PersonV,
    pub seen_id: bool,
    pub seen_name: bool,
    pub seen_email: bool,
}

pub open spec fn person_start() -> PersonAcc {
    PersonAcc {
        rec: PersonV { id: 0, name: Seq::empty(), email: Seq::empty() },
        seen_id: false,
        seen_name: false,
        seen_email: false,
    }
}

/// Accumulation state while walking a document's key/value pairs.
#[verifier::ext_equal]
pub struct DocumentAcc {
    pub rec: DocumentV,
    pub seen_id: bool,
    pub seen_name: bool,
    pub seen_authors: bool,
    pub seen_content: bool,
}

pub open spec fn document_start() -> DocumentAcc {
    DocumentAcc {
        rec: DocumentV {
            id: 0,
            name: Seq::empty(),
            authors: Seq::empty(),
            content: Seq::empty(),
        },
        seen_id: false,
        seen_name: false,
        seen_authors: false,
        seen_content: false,
    }
}

/// One accumulation step: resolve the key, check the value kind, and write
/// the value into the corresponding record slot.
pub open spec fn person_step(acc: PersonAcc, key: Seq<char>, v: EntryV) -> Result<
    PersonAcc,
    DecodeError,
> {
    match person_field_of_name(key) {
        None => Err(DecodeError::UnknownField),
        Some(PersonField::Id) => if v is Uint {
            Ok(
                PersonAcc {
                    rec: PersonV { id: v->Uint_0, name: acc.rec.name, email: acc.rec.email },
                    seen_id: true,
                    seen_name: acc.seen_name,
                    seen_email: acc.seen_email,
                },
            )
        } else {
            Err(DecodeError::TypeMismatch)
        },
        Some(PersonField::Name) => if v is Text {
            Ok(
                PersonAcc {
                    rec: PersonV { id: acc.rec.id, name: v->Text_0, email: acc.rec.email },
                    seen_id: acc.seen_id,
                    seen_name: true,
                    seen_email: acc.seen_email,
                },
            )
        } else {
            Err(DecodeError::TypeMismatch)
        },
        Some(PersonField::Email) => if v is Text {
            Ok(
                PersonAcc {
                    rec: PersonV { id: acc.rec.id, name: acc.rec.name, email: v->Text_0 },
                    seen_id: acc.seen_id,
                    seen_name: acc.seen_name,
                    seen_email: true,
                },
            )
        } else {
            Err(DecodeError::TypeMismatch)
        },
    }
}

pub open spec fn document_step(acc: DocumentAcc, key: Seq<char>, v: EntryV) -> Result<
    DocumentAcc,
    DecodeError,
> {
    match document_field_of_name(key) {
        None => Err(DecodeError::UnknownField),
        Some(DocumentField::Id) => if v is Uint {
            Ok(
                DocumentAcc {
                    rec: DocumentV {
                        id: v->Uint_0,
                        name: acc.rec.name,
                        authors: acc.rec.authors,
                        content: acc.rec.content,
                    },
                    seen_id: true,
                    seen_name: acc.seen_name,
                    seen_authors: acc.seen_authors,
                    seen_content: acc.seen_content,
                },
            )
        } else {
            Err(DecodeError::TypeMismatch)
        },
        Some(DocumentField::Name) => if v is Text {
            Ok(
                DocumentAcc {
                    rec: DocumentV {
                        id: acc.rec.id,
                        name: v->Text_0,
                        authors: acc.rec.authors,
                        content: acc.rec.content,
                    },
                    seen_id: acc.seen_id,
                    seen_name: true,
                    seen_authors: acc.seen_authors,
                    seen_content: acc.seen_content,
                },
            )
        } else {
            Err(DecodeError::TypeMismatch)
        },
        Some(DocumentField::Authors) => if v is People {
            Ok(
                DocumentAcc {
                    rec: DocumentV {
                        id: acc.rec.id,
                        name: acc.rec.name,
                        authors: v->People_0,
                        content: acc.rec.content,
                    },
                    seen_id: acc.seen_id,
                    seen_name: acc.seen_name,
                    seen_authors: true,
                    seen_content: acc.seen_content,
                },
            )
        } else {
            Err(DecodeError::TypeMismatch)
        },
        Some(DocumentField::Content) => if v is Text {
            Ok(
                DocumentAcc {
                    rec: DocumentV {
                        id: acc.rec.id,
                        name: acc.rec.name,
                        authors: acc.rec.authors,
                        content: v->Text_0,
                    },
                    seen_id: acc.seen_id,
                    seen_name: acc.seen_name,
                    seen_authors: acc.seen_authors,
                    seen_content: true,
                },
            )
        } else {
            Err(DecodeError::TypeMismatch)
        },
    }
}

pub open spec fn person_fold(acc: PersonAcc, pairs: Seq<(Seq<char>, EntryV)>) -> Result<
    PersonAcc,
    DecodeError,
>
    decreases pairs.len(),
{
    if pairs.len() == 0 {
        Ok(acc)
    } else {
        match person_step(acc, pairs[0].0, pairs[0].1) {
            Ok(a) => person_fold(a, pairs.drop_first()),
            Err(e) => Err(e),
        }
    }
}

pub open spec fn document_fold(acc: DocumentAcc, pairs: Seq<(Seq<char>, EntryV)>) -> Result<
    DocumentAcc,
    DecodeError,
>
    decreases pairs.len(),
{
    if pairs.len() == 0 {
        Ok(acc)
    } else {
        match document_step(acc, pairs[0].0, pairs[0].1) {
            Ok(a) => document_fold(a, pairs.drop_first()),
            Err(e) => Err(e),
        }
    }
}

/// Key-based decode of a person from the pairs a backend presents: start
/// from an all-default record, accumulate every pair, then require that all
/// declared fields were seen.
pub open spec fn person_from_pairs_spec(pairs: Seq<(Seq<char>, EntryV)>) -> Result<
    PersonV,
    DecodeError,
> {
    match person_fold(person_start(), pairs) {
        Ok(acc) => if acc.seen_id && acc.seen_name && acc.seen_email {
            Ok(acc.rec)
        } else {
            Err(DecodeError::MissingField)
        },
        Err(e) => Err(e),
    }
}

pub open spec fn document_from_pairs_spec(pairs: Seq<(Seq<char>, EntryV)>) -> Result<
    DocumentV,
    DecodeError,
> {
    match document_fold(document_start(), pairs) {
        Ok(acc) => if acc.seen_id && acc.seen_name && acc.seen_authors && acc.seen_content {
            Ok(acc.rec)
        } else {
            Err(DecodeError::MissingField)
        },
        Err(e) => Err(e),
    }
}

/// The views of a sequence of key/value pairs.
pub open spec fn pairs_view(s: Seq<(String, Entry)>) -> Seq<(Seq<char>, EntryV)> {
    s.map_values(|p: (String, Entry)| (p.0@, p.1@))
}

pub fn person_from_pairs(pairs: &Vec<(String, Entry)>) -> (r: Result<Person, DecodeError>)
    ensures
        match r {
            Ok(p) => person_from_pairs_spec(pairs_view(pairs@)) == Ok::<PersonV, DecodeError>(p@),
            Err(e) => person_from_pairs_spec(pairs_view(pairs@)) == Err::<PersonV, DecodeError>(e),
        },
{
    let ghost full = pairs_view(pairs@);
    let mut id: u64 = 0;
    let mut name: String = String::new();
    let mut email: String = String::new();
    let mut seen_id: bool = false;
    let mut seen_name: bool = false;
    let mut seen_email: bool = false;
    let mut i: usize = 0;
    proof {
        assert(full.skip(0) =~= full);
        assert(PersonAcc {
            rec: PersonV { id: 0u64, name: name@, email: email@ },
            seen_id: false,
            seen_name: false,
            seen_email: false,
        } =~= person_start());
    }
    while i < pairs.len()
        invariant
            i <= pairs@.len(),
            full == pairs_view(pairs@),
            person_fold(person_start(), full) == person_fold(
                PersonAcc {
                    rec: PersonV { id, name: name@, email: email@ },
                    seen_id,
                    seen_name,
                    seen_email,
                },
                full.skip(i as int),
            ),
        decreases pairs@.len() - i,
    {
        let ghost pv = full.skip(i as int);
        let ghost acc0 = PersonAcc {
            rec: PersonV { id, name: name@, email: email@ },
            seen_id,
            seen_name,
            seen_email,
        };
        proof {
            assert(pv[0] == full[i as int]);
            assert(pv.drop_first() =~= full.skip(i as int + 1));
        }
        let v = clone_entry(&pairs[i].1);
        match person_field_from_name(pairs[i].0.as_str()) {
            None => {
                proof {
                    assert(person_fold(acc0, pv) == Err::<PersonAcc, DecodeError>(
                        DecodeError::UnknownField,
                    ));
                }
                return Err(DecodeError::UnknownField);
            },
            Some(PersonField::Id) => match v {
                Entry::Uint(x) => {
                    id = x;
                    seen_id = true;
                },
                _ => {
                    proof {
                        assert(person_fold(acc0, pv) == Err::<PersonAcc, DecodeError>(
                            DecodeError::TypeMismatch,
                        ));
                    }
                    return Err(DecodeError::TypeMismatch);
                },
            },
            Some(PersonField::Name) => match v {
                Entry::Text(s) => {
                    name = s;
                    seen_name = true;
                },
                _ => {
                    proof {
                        assert(person_fold(acc0, pv) == Err::<PersonAcc, DecodeError>(
                            DecodeError::TypeMismatch,
                        ));
                    }
                    return Err(DecodeError::TypeMismatch);
                },
            },
            Some(PersonField::Email) => match v {
                Entry::Text(s) => {
                    email = s;
                    seen_email = true;
                },
                _ => {
                    proof {
                        assert(person_fold(acc0, pv) == Err::<PersonAcc, DecodeError>(
                            DecodeError::TypeMismatch,
                        ));
                    }
                    return Err(DecodeError::TypeMismatch);
                },
            },
        }
        proof {
            let acc1 = PersonAcc {
                rec: PersonV { id, name: name@, email: email@ },
                seen_id,
                seen_name,
                seen_email,
            };
            assert(person_step(acc0, pv[0].0, pv[0].1) == Ok::<PersonAcc, DecodeError>(acc1));
        }
        i = i + 1;
    }
    proof {
        assert(full.skip(i as int) =~= Seq::<(Seq<char>, EntryV)>::empty());
    }
    if seen_id && seen_name && seen_email {
        let p = Person { id, name, email };
        proof {
            assert(person_from_pairs_spec(full)->Ok_0 =~= p@);
        }
        Ok(p)
    } else {
        Err(DecodeError::MissingField)
    }
}

pub fn document_from_pairs(pairs: &Vec<(String, Entry)>) -> (r: Result<Document, DecodeError>)
    ensures
        match r {
            Ok(d) => document_from_pairs_spec(pairs_view(pairs@)) == Ok::<DocumentV, DecodeError>(
                d@,
            ),
            Err(e) => document_from_pairs_spec(pairs_view(pairs@)) == Err::<
                DocumentV,
                DecodeError,
            >(e),
        },
{
    let ghost full = pairs_view(pairs@);
    let mut id: u64 = 0;
    let mut name: String = String::new();
    let mut authors: Vec<Person> = Vec::new();
    let mut content: String = String::new();
    let mut seen_id: bool = false;
    let mut seen_name: bool = false;
    let mut seen_authors: bool = false;
    let mut seen_content: bool = false;
    let mut i: usize = 0;
    proof {
        assert(full.skip(0) =~= full);
        assert(crate::types::people_view(authors@) =~= Seq::<PersonV>::empty());
        assert(DocumentAcc {
            rec: DocumentV {
                id: 0u64,
                name: name@,
                authors: crate::types::people_view(authors@),
                content: content@,
            },
            seen_id: false,
            seen_name: false,
            seen_authors: false,
            seen_content: false,
        } =~= document_start());
    }
    while i < pairs.len()
        invariant
            i <= pairs@.len(),
            full == pairs_view(pairs@),
            document_fold(document_start(), full) == document_fold(
                DocumentAcc {
                    rec: DocumentV {
                        id,
                        name: name@,
                        authors: crate::types::people_view(authors@),
                        content: content@,
                    },
                    seen_id,
                    seen_name,
                    seen_authors,
                    seen_content,
                },
                full.skip(i as int),
            ),
        decreases pairs@.len() - i,
    {
        let ghost pv = full.skip(i as int);
        let ghost acc0 = DocumentAcc {
            rec: DocumentV {
                id,
                name: name@,
                authors: crate::types::people_view(authors@),
                content: content@,
            },
            seen_id,
            seen_name,
            seen_authors,
            seen_content,
        };
        proof {
            assert(pv[0] == full[i as int]);
            assert(pv.drop_first() =~= full.skip(i as int + 1));
        }
        let v = clone_entry(&pairs[i].1);
        match document_field_from_name(pairs[i].0.as_str()) {
            None => {
                proof {
                    assert(document_fold(acc0, pv) == Err::<DocumentAcc, DecodeError>(
                        DecodeError::UnknownField,
                    ));
                }
                return Err(DecodeError::UnknownField);
            },
            Some(DocumentField::Id) => match v {
                Entry::Uint(x) => {
                    id = x;
                    seen_id = true;
                },
                _ => {
                    proof {
                        assert(document_fold(acc0, pv) == Err::<DocumentAcc, DecodeError>(
                            DecodeError::TypeMismatch,
                        ));
                    }
                    return Err(DecodeError::TypeMismatch);
                },
            },
            Some(DocumentField::Name) => match v {
                Entry::Text(s) => {
                    name = s;
                    seen_name = true;
                },
                _ => {
                    proof {
                        assert(document_fold(acc0, pv) == Err::<DocumentAcc, DecodeError>(
                            DecodeError::TypeMismatch,
                        ));
                    }
                    return Err(DecodeError::TypeMismatch);
                },
            },
            Some(DocumentField::Authors) => match v {
                Entry::People(ps) => {
                    authors = ps;
                    seen_authors = true;
                },
                _ => {
                    proof {
                        assert(document_fold(acc0, pv) == Err::<DocumentAcc, DecodeError>(
                            DecodeError::TypeMismatch,
                        ));
                    }
                    return Err(DecodeError::TypeMismatch);
                },
            },
            Some(DocumentField::Content) => match v {
                Entry::Text(s) => {
                    content = s;
                    seen_content = true;
                },
                _ => {
                    proof {
                        assert(document_fold(acc0, pv) == Err::<DocumentAcc, DecodeError>(
                            DecodeError::TypeMismatch,
                        ));
                    }
                    return Err(DecodeError::TypeMismatch);
                },
            },
        }
        proof {
            let acc1 = DocumentAcc {
                rec: DocumentV {
                    id,
                    name: name@,
                    authors: crate::types::people_view(authors@),
                    content: content@,
                },
                seen_id,
                seen_name,
                seen_authors,
                seen_content,
            };
            assert(document_step(acc0, pv[0].0, pv[0].1) == Ok::<DocumentAcc, DecodeError>(acc1));
        }
        i = i + 1;
    }
    proof {
        assert(full.skip(i as int) =~= Seq::<(Seq<char>, EntryV)>::empty());
    }
    if seen_id && seen_name && seen_authors && seen_content {
        let d = Document { id, name, authors, content };
        proof {
            assert(document_from_pairs_spec(full)->Ok_0 =~= d@);
        }
        Ok(d)
    } else {
        Err(DecodeError::MissingField)
    }
}

// ------------------------------------------------------------------
// Laws of the accumulation
// ------------------------------------------------------------------

/// Folding well-formed pairs never fails, marks exactly the fields whose
/// keys appeared as seen, and leaves each field holding the value of its
/// key's last occurrence (or the starting value if the key never appeared).
pub proof fn lemma_person_fold_wf(acc: PersonAcc, pairs: Seq<(Seq<char>, EntryV)>)
    requires
        person_pairs_wf(pairs),
    ensures
        person_fold(acc, pairs) matches Ok(a2) && {
            &&& a2.seen_id == (acc.seen_id || person_key_present(pairs, PersonField::Id))
            &&& a2.seen_name == (acc.seen_name || person_key_present(pairs, PersonField::Name))
            &&& a2.seen_email == (acc.seen_email || person_key_present(pairs, PersonField::Email))
            &&& a2.rec.id == if person_key_present(pairs, PersonField::Id) {
                person_field_value(pairs, PersonField::Id)->Uint_0
            } else {
                acc.rec.id
            }
            &&& a2.rec.name == if person_key_present(pairs, PersonField::Name) {
                person_field_value(pairs, PersonField::Name)->Text_0
            } else {
                acc.rec.name
            }
            &&& a2.rec.email == if person_key_present(pairs, PersonField::Email) {
                person_field_value(pairs, PersonField::Email)->Text_0
            } else {
                acc.rec.email
            }
        },
    decreases pairs.len(),
{
    if pairs.len() == 0 {
    } else {
        let rest = pairs.drop_first();
        assert(person_pair_wf(pairs[0].0, pairs[0].1));
        assert(person_pairs_wf(rest)) by {
            assert forall|j: int| 0 <= j < rest.len() implies person_pair_wf(
                (#[trigger] rest[j]).0,
                rest[j].1,
            ) by {
                assert(rest[j] == pairs[j + 1]);
            }
        }
        let a1 = person_step(acc, pairs[0].0, pairs[0].1)->Ok_0;
        lemma_person_fold_wf(a1, rest);
        assert forall|f: PersonField|
            #[trigger] person_key_present(pairs, f) == (person_field_of_name(pairs[0].0) == Some(f)
                || person_key_present(rest, f)) by {
            if person_field_of_name(pairs[0].0) == Some(f) {
                assert(person_key_present(pairs, f));
            }
            if person_key_present(rest, f) {
                let j = choose|j: int|
                    0 <= j < rest.len() && person_field_of_name((#[trigger] rest[j]).0) == Some(f);
                assert(pairs[j + 1] == rest[j]);
                assert(person_key_present(pairs, f));
            }
            if person_key_present(pairs, f) {
                let j = choose|j: int|
                    0 <= j < pairs.len() && person_field_of_name((#[trigger] pairs[j]).0) == Some(
                        f,
                    );
                if j > 0 {
                    assert(rest[j - 1] == pairs[j]);
                    assert(person_key_present(rest, f));
                }
            }
        }
    }
}

/// The document version of [`lemma_person_fold_wf`].
pub proof fn lemma_document_fold_wf(acc: DocumentAcc, pairs: Seq<(Seq<char>, EntryV)>)
    requires
        document_pairs_wf(pairs),
    ensures
        document_fold(acc, pairs) matches Ok(a2) && {
            &&& a2.seen_id == (acc.seen_id || document_key_present(pairs, DocumentField::Id))
            &&& a2.seen_name == (acc.seen_name || document_key_present(pairs, DocumentField::Name))
            &&& a2.seen_authors == (acc.seen_authors || document_key_present(
                pairs,
                DocumentField::Authors,
            ))
            &&& a2.seen_content == (acc.seen_content || document_key_present(
                pairs,
                DocumentField::Content,
            ))
            &&& a2.rec.id == if document_key_present(pairs, DocumentField::Id) {
                document_field_value(pairs, DocumentField::Id)->Uint_0
            } else {
                acc.rec.id
            }
            &&& a2.rec.name == if document_key_present(pairs, DocumentField::Name) {
                document_field_value(pairs, DocumentField::Name)->Text_0
            } else {
                acc.rec.name
            }
            &&& a2.rec.authors == if document_key_present(pairs, DocumentField::Authors) {
                document_field_value(pairs, DocumentField::Authors)->People_0
            } else {
                acc.rec.authors
            }
            &&& a2.rec.content == if document_key_present(pairs, DocumentField::Content) {
                document_field_value(pairs, DocumentField::Content)->Text_0
            } else {
                acc.rec.content
            }
        },
    decreases pairs.len(),
{
    if pairs.len() == 0 {
    } else {
        let rest = pairs.drop_first();
        assert(document_pair_wf(pairs[0].0, pairs[0].1));
        assert(document_pairs_wf(rest)) by {
            assert forall|j: int| 0 <= j < rest.len() implies document_pair_wf(
                (#[trigger] rest[j]).0,
                rest[j].1,
            ) by {
                assert(rest[j] == pairs[j + 1]);
            }
        }
        let a1 = document_step(acc, pairs[0].0, pairs[0].1)->Ok_0;
        lemma_document_fold_wf(a1, rest);
        assert forall|f: DocumentField|
            #[trigger] document_key_present(pairs, f) == (document_field_of_name(pairs[0].0)
                == Some(f) || document_key_present(rest, f)) by {
            if document_field_of_name(pairs[0].0) == Some(f) {
                assert(document_key_present(pairs, f));
            }
            if document_key_present(rest, f) {
                let j = choose|j: int|
                    0 <= j < rest.len() && document_field_of_name((#[trigger] rest[j]).0) == Some(
                        f,
                    );
                assert(pairs[j + 1] == rest[j]);
                assert(document_key_present(pairs, f));
            }
            if document_key_present(pairs, f) {
                let j = choose|j: int|
                    0 <= j < pairs.len() && document_field_of_name((#[trigger] pairs[j]).0)
                        == Some(f);
                if j > 0 {
                    assert(rest[j - 1] == pairs[j]);
                    assert(document_key_present(rest, f));
                }
            }
        }
    }
}

/// Decoding succeeds for any presentation order of the keys: whenever every
/// declared key appears with a well-kinded value, whatever the order and
/// however the backend interleaved them, the decode succeeds and each field
/// holds the value paired with its key's last occurrence. In particular a
/// buffer in which every declared key appears exactly once decodes to the
/// record those pairs describe, in any order.
pub proof fn lemma_person_pairs_any_order(pairs: Seq<(Seq<char>, EntryV)>)
    requires
        person_pairs_wf(pairs),
        person_key_present(pairs, PersonField::Id),
        person_key_present(pairs, PersonField::Name),
        person_key_present(pairs, PersonField::Email),
    ensures
        person_from_pairs_spec(pairs) matches Ok(p) && {
            &&& EntryV::Uint(p.id) == person_field_value(pairs, PersonField::Id)
            &&& EntryV::Text(p.name) == person_field_value(pairs, PersonField::Name)
            &&& EntryV::Text(p.email) == person_field_value(pairs, PersonField::Email)
        },
{
    lemma_person_fold_wf(person_start(), pairs);
    lemma_person_field_value_wf(pairs, PersonField::Id);
    lemma_person_field_value_wf(pairs, PersonField::Name);
    lemma_person_field_value_wf(pairs, PersonField::Email);
}

/// The document version of [`lemma_person_pairs_any_order`].
pub proof fn lemma_document_pairs_any_order(pairs: Seq<(Seq<char>, EntryV)>)
    requires
        document_pairs_wf(pairs),
        document_key_present(pairs, DocumentField::Id),
        document_key_present(pairs, DocumentField::Name),
        document_key_present(pairs, DocumentField::Authors),
        document_key_present(pairs, DocumentField::Content),
    ensures
        document_from_pairs_spec(pairs) matches Ok(d) && {
            &&& EntryV::Uint(d.id) == document_field_value(pairs, DocumentField::Id)
            &&& EntryV::Text(d.name) == document_field_value(pairs, DocumentField::Name)
            &&& EntryV::People(d.authors) == document_field_value(pairs, DocumentField::Authors)
            &&& EntryV::Text(d.content) == document_field_value(pairs, DocumentField::Content)
        },
{
    lemma_document_fold_wf(document_start(), pairs);
    lemma_document_field_value_wf(pairs, DocumentField::Id);
    lemma_document_field_value_wf(pairs, DocumentField::Name);
    lemma_document_field_value_wf(pairs, DocumentField::Authors);
    lemma_document_field_value_wf(pairs, DocumentField::Content);
}

/// When a field's key is present among well-formed pairs, its last value has
/// the kind the field requires.
pub proof fn lemma_person_field_value_wf(pairs: Seq<(Seq<char>, EntryV)>, f: PersonField)
    requires
        person_pairs_wf(pairs),
        person_key_present(pairs, f),
    ensures
        person_value_ok(f, person_field_value(pairs, f)),
    decreases pairs.len(),
{
    let rest = pairs.drop_first();
    assert(person_pairs_wf(rest)) by {
        assert forall|j: int| 0 <= j < rest.len() implies person_pair_wf(
            (#[trigger] rest[j]).0,
            rest[j].1,
        ) by {
            assert(rest[j] == pairs[j + 1]);
        }
    }
    if person_field_of_name(pairs[0].0) == Some(f) && !person_key_present(rest, f) {
    } else {
        if person_key_present(rest, f) {
            lemma_person_field_value_wf(rest, f);
        } else {
            let j = choose|j: int|
                0 <= j < pairs.len() && person_field_of_name((#[trigger] pairs[j]).0) == Some(f);
            if j > 0 {
                assert(rest[j - 1] == pairs[j]);
                assert(person_key_present(rest, f));
            }
        }
    }
}

pub proof fn lemma_document_field_value_wf(pairs: Seq<(Seq<char>, EntryV)>, f: DocumentField)
    requires
        document_pairs_wf(pairs),
        document_key_present(pairs, f),
    ensures
        document_value_ok(f, document_field_value(pairs, f)),
    decreases pairs.len(),
{
    let rest = pairs.drop_first();
    assert(document_pairs_wf(rest)) by {
        assert forall|j: int| 0 <= j < rest.len() implies document_pair_wf(
            (#[trigger] rest[j]).0,
            rest[j].1,
        ) by {
            assert(rest[j] == pairs[j + 1]);
        }
    }
    if document_field_of_name(pairs[0].0) == Some(f) && !document_key_present(rest, f) {
    } else {
        if document_key_present(rest, f) {
            lemma_document_field_value_wf(rest, f);
        } else {
            let j = choose|j: int|
                0 <= j < pairs.len() && document_field_of_name((#[trigger] pairs[j]).0) == Some(f);
            if j > 0 {
                assert(rest[j - 1] == pairs[j]);
                assert(document_key_present(rest, f));
            }
        }
    }
}

/// An unrecognized field name is fatal: if the pairs before position `i`
/// are well formed and the key at `i` resolves to no declared field, the
/// decode reports exactly an unknown-field error.
pub proof fn lemma_document_unknown_field_fatal(pairs: Seq<(Seq<char>, EntryV)>, i: int)
    requires
        0 <= i < pairs.len(),
        forall|j: int| 0 <= j < i ==> document_pair_wf((#[trigger] pairs[j]).0, pairs[j].1),
        document_field_of_name(pairs[i].0) is None,
    ensures
        document_from_pairs_spec(pairs) == Err::<DocumentV, DecodeError>(DecodeError::UnknownField),
{
    lemma_document_fold_unknown(document_start(), pairs, i);
}

proof fn lemma_document_fold_unknown(acc: DocumentAcc, pairs: Seq<(Seq<char>, EntryV)>, i: int)
    requires
        0 <= i < pairs.len(),
        forall|j: int| 0 <= j < i ==> document_pair_wf((#[trigger] pairs[j]).0, pairs[j].1),
        document_field_of_name(pairs[i].0) is None,
    ensures
        document_fold(acc, pairs) == Err::<DocumentAcc, DecodeError>(DecodeError::UnknownField),
    decreases pairs.len(),
{
    if i == 0 {
        assert(document_step(acc, pairs[0].0, pairs[0].1) == Err::<DocumentAcc, DecodeError>(
            DecodeError::UnknownField,
        ));
    } else {
        let rest = pairs.drop_first();
        assert(document_pair_wf(pairs[0].0, pairs[0].1));
        let a1 = document_step(acc, pairs[0].0, pairs[0].1)->Ok_0;
        assert(forall|j: int|
            0 <= j < i - 1 ==> document_pair_wf((#[trigger] rest[j]).0, rest[j].1)) by {
            assert(forall|j: int| 0 <= j < i - 1 ==> rest[j] == pairs[j + 1]);
        }
        assert(rest[i - 1] == pairs[i]);
        lemma_document_fold_unknown(a1, rest, i - 1);
    }
}

/// A declared field whose key never appears is fatal: with every presented
/// pair well formed but field `f`'s key absent, the decode reports exactly a
/// missing-field error.
pub proof fn lemma_document_missing_field_fatal(pairs: Seq<(Seq<char>, EntryV)>, f: DocumentField)
    requires
        document_pairs_wf(pairs),
        !document_key_present(pairs, f),
    ensures
        document_from_pairs_spec(pairs) == Err::<DocumentV, DecodeError>(DecodeError::MissingField),
{
    lemma_document_fold_wf(document_start(), pairs);
}

} // verus!
