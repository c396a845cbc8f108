//! The backend-neutral field value stream and the decode error taxonomy.

use crate::types::{clone_people, people_view, Person, PersonV};
use vstd::prelude::*;

verus! {

/// One field value as handed between a protocol and a backend.
pub enum Entry {
    /// A 64-bit unsigned integer field.
    Uint(u64),
    /// A text field.
    Text(String),
    /// An ordered author list field.
    People(Vec<Person>),
}

/// The mathematical value of an [`Entry`].
#[verifier::ext_equal]
pub enum EntryV {
    Uint(u64),
    Text(Seq<char>),
    People(Seq<PersonV>),
}

impl View for Entry {
    type V = EntryV;

    open spec fn view(&self) -> EntryV {
        match self {
            Entry::Uint(x) => EntryV::Uint(*x),
            Entry::Text(s) => EntryV::Text(s@),
            Entry::People(v) => EntryV::People(people_view(v@)),
        }
    }
}

/// A value-preserving copy of an entry.
pub fn clone_entry(e: &Entry) -> (r: Entry)
    ensures
        r@ == e@,
{
    match e {
        Entry::Uint(x) => Entry::Uint(*x),
        Entry::Text(s) => Entry::Text(s.clone()),
        Entry::People(v) => Entry::People(clone_people(v)),
    }
}

/// The views of a sequence of entries, element by element.
pub open spec fn entries_view(s: Seq<Entry>) -> Seq<EntryV> {
    s.map_values(|e: Entry| e@)
}

/// Why a decode was abandoned. Decoding fails closed: the first error is
/// surfaced and no partial record is returned.
#[derive(PartialEq, Eq, Structural, Clone, Copy, Debug)]
pub enum DecodeError {
    /// A field name outside the declared set was met (key-based protocol).
    UnknownField,
    /// A declared field never appeared before the stream ended (key-based
    /// protocol).
    MissingField,
    /// The declared field count of the buffer differs from the record's
    /// (index-based protocol).
    WrongFieldCount,
    /// Input remained after the last declared field was consumed.
    TrailingInput,
    /// The buffer ended before the expected value was complete.
    Truncated,
    /// A field value did not have the kind its field requires.
    TypeMismatch,
    /// A malformed wire value: an unknown tag or invalid text bytes.
    Malformed,
}

impl DecodeError {
    /// A short human-readable label for the error.
    pub fn label(&self) -> (r: &'static str)
        ensures
            r@.len() > 0,
    {
        let r = match self {
            DecodeError::UnknownField => "unknown field",
            DecodeError::MissingField => "missing field",
            DecodeError::WrongFieldCount => "wrong field count",
            DecodeError::TrailingInput => "trailing input",
            DecodeError::Truncated => "truncated input",
            DecodeError::TypeMismatch => "field type mismatch",
            DecodeError::Malformed => "malformed value",
        };
        proof {
            reveal_strlit("unknown field");
            reveal_strlit("missing field");
            reveal_strlit("wrong field count");
            reveal_strlit("trailing input");
            reveal_strlit("truncated input");
            reveal_strlit("field type mismatch");
            reveal_strlit("malformed value");
        }
        r
    }
}

} // verus!
