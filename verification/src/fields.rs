//! Closed per-type field enumerations and the name resolver used during
//! key-based decoding.

use vstd::prelude::*;
use vstd::string::StringSliceAdditionalSpecFns;
use vstd::utf8::encode_utf8_decode_utf8;

verus! {

/// Exact text equality of two string slices.
pub fn str_eq(a: &str, b: &str) -> (r: bool)
    ensures
        r == (a@ == b@),
{
    proof {
        encode_utf8_decode_utf8(a@);
        encode_utf8_decode_utf8(b@);
    }
    let ab = a.as_bytes();
    let bb = b.as_bytes();
    if ab.len() != bb.len() {
        proof {
            assert(a@ != b@) by {
                if a@ == b@ {
                    assert(ab@ == bb@);
                }
            }
        }
        return false;
    }
    let mut i: usize = 0;
    while i < ab.len()
        invariant
            i <= ab@.len(),
            ab@.len() == bb@.len(),
            ab@ == a.spec_bytes(),
            bb@ == b.spec_bytes(),
            forall|j: int| 0 <= j < i ==> ab@[j] == bb@[j],
        decreases ab@.len() - i,
    {
        let x = *vstd::slice::slice_index_get(ab, i);
        let y = *vstd::slice::slice_index_get(bb, i);
        if x != y {
            proof {
                assert(a@ != b@) by {
                    if a@ == b@ {
                        assert(ab@ == bb@);
                    }
                }
            }
            return false;
        }
        i = i + 1;
    }
    proof {
        assert(ab@ =~= bb@);
        assert(a@ == b@) by {
            assert(vstd::utf8::decode_utf8(a.spec_bytes()) == a@);
            assert(vstd::utf8::decode_utf8(b.spec_bytes()) == b@);
        }
    }
    true
}

/// The closed set of `Person` field identifiers, in declared order.
#[derive(PartialEq, Eq, Structural, Clone, Copy, Debug)]
pub enum PersonField {
    Id,
    Name,
    Email,
}

/// The closed set of `Document` field identifiers, in declared order.
#[derive(PartialEq, Eq, Structural, Clone, Copy, Debug)]
pub enum DocumentField {
    Id,
    Name,
    Authors,
    Content,
}

impl PersonField {
    /// Ordinal position in the declared field order.
    pub open spec fn spec_ordinal(self) -> int {
        match self {
            PersonField::Id => 0,
            PersonField::Name => 1,
            PersonField::Email => 2,
        }
    }

    /// Wire name of the field.
    pub open spec fn spec_name(self) -> Seq<char> {
        match self {
            PersonField::Id => "id"@,
            PersonField::Name => "name"@,
            PersonField::Email => "email"@,
        }
    }

    pub fn ordinal(&self) -> (r: usize)
        ensures
            r == self.spec_ordinal(),
    {
        match self {
            PersonField::Id => 0,
            PersonField::Name => 1,
            PersonField::Email => 2,
        }
    }

    pub fn name(&self) -> (r: &'static str)
        ensures
            r@ == self.spec_name(),
    {
        match self {
            PersonField::Id => "id",
            PersonField::Name => "name",
            PersonField::Email => "email",
        }
    }
}

impl DocumentField {
    /// Ordinal position in the declared field order.
    pub open spec fn spec_ordinal(self) -> int {
        match self {
            DocumentField::Id => 0,
            DocumentField::Name => 1,
            DocumentField::Authors => 2,
            DocumentField::Content => 3,
        }
    }

    /// Wire name of the field.
    pub open spec fn spec_name(self) -> Seq<char> {
        match self {
            DocumentField::Id => "id"@,
            DocumentField::Name => "name"@,
            DocumentField::Authors => "authors"@,
            DocumentField::Content => "content"@,
        }
    }

    pub fn ordinal(&self) -> (r: usize)
        ensures
            r == self.spec_ordinal(),
    {
        match self {
            DocumentField::Id => 0,
            DocumentField::Name => 1,
            DocumentField::Authors => 2,
            DocumentField::Content => 3,
        }
    }

    pub fn name(&self) -> (r: &'static str)
        ensures
            r@ == self.spec_name(),
    {
        match self {
            DocumentField::Id => "id",
            DocumentField::Name => "name",
            DocumentField::Authors => "authors",
            DocumentField::Content => "content",
        }
    }
}

/// Total name resolution for `Person` fields: exactly the three declared
/// names resolve, everything else is rejected.
pub open spec fn person_field_of_name(s: Seq<char>) -> Option<PersonField> {
    if s == "id"@ {
        Some(PersonField::Id)
    } else if s == "name"@ {
        Some(PersonField::Name)
    } else if s == "email"@ {
        Some(PersonField::Email)
    } else {
        None
    }
}

/// Total name resolution for `Document` fields.
pub open spec fn document_field_of_name(s: Seq<char>) -> Option<DocumentField> {
    if s == "id"@ {
        Some(DocumentField::Id)
    } else if s == "name"@ {
        Some(DocumentField::Name)
    } else if s == "authors"@ {
        Some(DocumentField::Authors)
    } else if s == "content"@ {
        Some(DocumentField::Content)
    } else {
        None
    }
}

pub fn person_field_from_name(s: &str) -> (r: Option<PersonField>)
    ensures
        r == person_field_of_name(s@),
{
    if str_eq(s, "id") {
        Some(PersonField::Id)
    } else if str_eq(s, "name") {
        Some(PersonField::Name)
    } else if str_eq(s, "email") {
        Some(PersonField::Email)
    } else {
        None
    }
}

pub fn document_field_from_name(s: &str) -> (r: Option<DocumentField>)
    ensures
        r == document_field_of_name(s@),
{
    if str_eq(s, "id") {
        Some(DocumentField::Id)
    } else if str_eq(s, "name") {
        Some(DocumentField::Name)
    } else if str_eq(s, "authors") {
        Some(DocumentField::Authors)
    } else if str_eq(s, "content") {
        Some(DocumentField::Content)
    } else {
        None
    }
}

} // verus!
