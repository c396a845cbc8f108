//! The index-based codec protocol: fields are traversed positionally, with
//! the total field count declared up front and every field tagged with its
//! ordinal and its name-bearing identifier.

use crate::entry::{entries_view, DecodeError, Entry, EntryV};
use crate::fields::{DocumentField, PersonField};
use crate::types::{clone_people, Document, DocumentV, Person, PersonV};
use vstd::prelude::*;

verus! {

/// The field values of a person, in declared order.
pub open spec fn person_field_entries(p: PersonV) -> Seq<EntryV> {
    seq![EntryV::Uint(p.id), EntryV::Text(p.name), EntryV::Text(p.email)]
}

/// The field values of a document, in declared order.
pub open spec fn document_field_entries(d: DocumentV) -> Seq<EntryV> {
    seq![
        EntryV::Uint(d.id),
        EntryV::Text(d.name),
        EntryV::People(d.authors),
        EntryV::Text(d.content),
    ]
}

/// Index-based encode traversal of a person: the declared count, then every
/// field in declared order, each paired with its ordinal-bearing identifier.
pub fn person_emit_indexed(p: &Person) -> (r: (usize, Vec<(PersonField, Entry)>))
    ensures
        r.0 == 3,
        r.1@.len() == 3,
        forall|i: int| 0 <= i < 3 ==> (#[trigger] r.1@[i]).0.spec_ordinal() == i,
        forall|i: int| 0 <= i < 3 ==> (#[trigger] r.1@[i]).1@ == person_field_entries(p@)[i],
{
    let fields = vec![
        (PersonField::Id, Entry::Uint(p.id)),
        (PersonField::Name, Entry::Text(p.name.clone())),
        (PersonField::Email, Entry::Text(p.email.clone())),
    ];
    (3, fields)
}

/// Index-based encode traversal of a document.
pub fn document_emit_indexed(d: &Document) -> (r: (usize, Vec<(DocumentField, Entry)>))
    ensures
        r.0 == 4,
        r.1@.len() == 4,
        forall|i: int| 0 <= i < 4 ==> (#[trigger] r.1@[i]).0.spec_ordinal() == i,
        forall|i: int| 0 <= i < 4 ==> (#[trigger] r.1@[i]).1@ == document_field_entries(d@)[i],
{
    let fields = vec![
        (DocumentField::Id, Entry::Uint(d.id)),
        (DocumentField::Name, Entry::Text(d.name.clone())),
        (DocumentField::Authors, Entry::People(clone_people(&d.authors))),
        (DocumentField::Content, Entry::Text(d.content.clone())),
    ];
    (4, fields)
}

/// Index-based decode: a person is rebuilt from the values read back at each
/// ordinal, in the same fixed order. A count other than the declared one is
/// an arity error; a value of the wrong kind is a type error.
pub open spec fn person_build_spec(s: Seq<EntryV>) -> Result<PersonV, DecodeError> {
    if s.len() != 3 {
        Err(DecodeError::WrongFieldCount)
    } else if !(s[0] is Uint) || !(s[1] is Text) || !(s[2] is Text) {
        Err(DecodeError::TypeMismatch)
    } else {
        Ok(PersonV { id: s[0]->Uint_0, name: s[1]->Text_0, email: s[2]->Text_0 })
    }
}

/// Index-based decode of a document, in the same fixed order.
pub open spec fn document_build_spec(s: Seq<EntryV>) -> Result<DocumentV, DecodeError> {
    if s.len() != 4 {
        Err(DecodeError::WrongFieldCount)
    } else if !(s[0] is Uint) || !(s[1] is Text) || !(s[2] is People) || !(s[3] is Text) {
        Err(DecodeError::TypeMismatch)
    } else {
        Ok(
            DocumentV {
                id: s[0]->Uint_0,
                name: s[1]->Text_0,
                authors: s[2]->People_0,
                content: s[3]->Text_0,
            },
        )
    }
}

pub fn person_build_indexed(entries: Vec<Entry>) -> (r: Result<Person, DecodeError>)
    ensures
        match r {
            Ok(p) => person_build_spec(entries_view(entries@)) == Ok::<PersonV, DecodeError>(p@),
            Err(e) => person_build_spec(entries_view(entries@)) == Err::<PersonV, DecodeError>(e),
        },
{
    let ghost sv = entries_view(entries@);
    if entries.len() != 3 {
        return Err(DecodeError::WrongFieldCount);
    }
    let mut entries = entries;
    let e2 = entries.pop().unwrap();
    let e1 = entries.pop().unwrap();
    let e0 = entries.pop().unwrap();
    proof {
        assert(sv[0] == e0@ && sv[1] == e1@ && sv[2] == e2@);
    }
    match (e0, e1, e2) {
        (Entry::Uint(id), Entry::Text(name), Entry::Text(email)) => {
            let p = Person { id, name, email };
            proof {
                assert(person_build_spec(sv)->Ok_0 =~= p@);
            }
            Ok(p)
        },
        _ => Err(DecodeError::TypeMismatch),
    }
}

pub fn document_build_indexed(entries: Vec<Entry>) -> (r: Result<Document, DecodeError>)
    ensures
        match r {
            Ok(d) => document_build_spec(entries_view(entries@)) == Ok::<DocumentV, DecodeError>(
                d@,
            ),
            Err(e) => document_build_spec(entries_view(entries@)) == Err::<DocumentV, DecodeError>(
                e,
            ),
        },
{
    let ghost sv = entries_view(entries@);
    if entries.len() != 4 {
        return Err(DecodeError::WrongFieldCount);
    }
    let mut entries = entries;
    let e3 = entries.pop().unwrap();
    let e2 = entries.pop().unwrap();
    let e1 = entries.pop().unwrap();
    let e0 = entries.pop().unwrap();
    proof {
        assert(sv[0] == e0@ && sv[1] == e1@ && sv[2] == e2@ && sv[3] == e3@);
    }
    match (e0, e1, e2, e3) {
        (Entry::Uint(id), Entry::Text(name), Entry::People(authors), Entry::Text(content)) => {
            let d = Document { id, name, authors, content };
            proof {
                assert(document_build_spec(sv)->Ok_0 =~= d@);
            }
            Ok(d)
        },
        _ => Err(DecodeError::TypeMismatch),
    }
}

/// Rebuilding a person from its own declared traversal yields the person:
/// the index-based decode inverts the index-based encode.
pub proof fn lemma_person_build_inverts_entries(p: PersonV)
    ensures
        person_build_spec(person_field_entries(p)) == Ok::<PersonV, DecodeError>(p),
{
    let s = person_field_entries(p);
    assert(person_build_spec(s)->Ok_0 =~= p);
}

/// Rebuilding a document from its own declared traversal yields the document.
pub proof fn lemma_document_build_inverts_entries(d: DocumentV)
    ensures
        document_build_spec(document_field_entries(d)) == Ok::<DocumentV, DecodeError>(d),
{
    let s = document_field_entries(d);
    assert(document_build_spec(s)->Ok_0 =~= d);
}

} // verus!
