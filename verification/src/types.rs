//! The two record types, their mathematical views, and sample-data builders.

use rand::distr::SampleString;
use vstd::prelude::*;

verus! {

/// A person record: a stable numeric identity plus two required text fields.
#[derive(Debug)]
pub struct Person {
    pub id: u64,
    pub name: String,
    pub email: String,
}

/// The mathematical value of a [`Person`]: its fields, with text as
/// character sequences.
#[verifier::ext_equal]
pub struct PersonV {
    pub id: u64,
    pub name: Seq<char>,
    pub email: Seq<char>,
}

impl View for Person {
    type V = PersonV;

    open spec fn view(&self) -> PersonV {
        PersonV { id: self.id, name: self.name@, email: self.email@ }
    }
}

/// The views of a sequence of persons, element by element.
pub open spec fn people_view(s: Seq<Person>) -> Seq<PersonV> {
    s.map_values(|p: Person| p@)
}

/// A document record: identity, a name, an ordered author list, and a text
/// content payload.
#[derive(Debug)]
pub struct Document {
    pub id: u64,
    pub name: String,
    pub authors: Vec<Person>,
    pub content: String,
}

/// The mathematical value of a [`Document`].
#[verifier::ext_equal]
pub struct DocumentV {
    pub id: u64,
    pub name: Seq<char>,
    pub authors: Seq<PersonV>,
    pub content: Seq<char>,
}

impl View for Document {
    type V = DocumentV;

    open spec fn view(&self) -> DocumentV {
        DocumentV {
            id: self.id,
            name: self.name@,
            authors: people_view(self.authors@),
            content: self.content@,
        }
    }
}

impl Clone for Person {
    fn clone(&self) -> (r: Self)
        ensures
            r == *self,
    {
        Person { id: self.id, name: self.name.clone(), email: self.email.clone() }
    }
}

/// An element-by-element copy of an author list.
pub fn clone_people(v: &Vec<Person>) -> (r: Vec<Person>)
    ensures
        r@ == v@,
{
    let mut r: Vec<Person> = Vec::new();
    let mut i: usize = 0;
    while i < v.len()
        invariant
            i <= v@.len(),
            r@ == v@.subrange(0, i as int),
        decreases v@.len() - i,
    {
        r.push(v[i].clone());
        proof {
            assert(r@ =~= v@.subrange(0, i + 1));
        }
        i = i + 1;
    }
    proof {
        assert(v@.subrange(0, v@.len() as int) =~= v@);
    }
    r
}

impl Clone for Document {
    fn clone(&self) -> (r: Self)
        ensures
            r@ == self@,
            r.authors@ == self.authors@,
    {
        let r = Document {
            id: self.id,
            name: self.name.clone(),
            authors: clone_people(&self.authors),
            content: self.content.clone(),
        };
        proof {
            assert(r@ =~= self@);
        }
        r
    }
}

impl PartialEq for Person {
    fn eq(&self, other: &Self) -> (r: bool) {
        self.id == other.id && self.name == other.name && self.email == other.email
    }
}

impl vstd::std_specs::cmp::PartialEqSpecImpl for Person {
    open spec fn obeys_eq_spec() -> bool {
        true
    }

    open spec fn eq_spec(&self, other: &Self) -> bool {
        self@ == other@
    }
}

impl PartialEq for Document {
    fn eq(&self, other: &Self) -> (r: bool) {
        if self.id != other.id || !(self.name == other.name) || !(self.content == other.content) {
            return false;
        }
        if self.authors.len() != other.authors.len() {
            proof {
                assert(self@.authors.len() != other@.authors.len());
            }
            return false;
        }
        let mut i: usize = 0;
        while i < self.authors.len()
            invariant
                i <= self.authors@.len(),
                self.authors@.len() == other.authors@.len(),
                forall|j: int| 0 <= j < i ==> self.authors@[j]@ == other.authors@[j]@,
            decreases self.authors@.len() - i,
        {
            if !(self.authors[i] == other.authors[i]) {
                proof {
                    assert(people_view(self.authors@)[i as int] != people_view(
                        other.authors@,
                    )[i as int]);
                }
                return false;
            }
            i = i + 1;
        }
        proof {
            assert(people_view(self.authors@) =~= people_view(other.authors@));
        }
        true
    }
}

impl vstd::std_specs::cmp::PartialEqSpecImpl for Document {
    open spec fn obeys_eq_spec() -> bool {
        true
    }

    open spec fn eq_spec(&self, other: &Self) -> bool {
        self@ == other@
    }
}

/// Relies on rand's `Alphanumeric` distribution through
/// `SampleString::sample_string`: the sampled string holds exactly `len`
/// characters, each an ASCII letter or digit.
#[verifier::external_body]
fn random_ascii_string(len: usize) -> (r: String)
    ensures
        r@.len() == len as nat,
        forall|i: int| 0 <= i < r@.len() ==> (r@[i] as u32) < 128,
{
    rand::distr::Alphanumeric.sample_string(&mut rand::rng(), len)
}

/// A freshly drawn text payload of exactly `size` ASCII characters.
pub fn generate_data(size: usize) -> (r: String)
    ensures
        r@.len() == size as nat,
{
    random_ascii_string(size)
}

/// The fixed two-author sample document, with a random content payload of
/// `size` characters.
pub fn make_sample_data(size: usize) -> (d: Document)
    ensures
        d@.id == 829472904u64,
        d@.name == "stuff.txt"@,
        d@.authors.len() == 2,
        d@.authors[0] == (PersonV { id: 1u64, name: "Alice"@, email: "alice@example.com"@ }),
        d@.authors[1] == (PersonV { id: 2u64, name: "Bob"@, email: "bob@example.com"@ }),
        d@.content.len() == size as nat,
{
    let alice = Person {
        id: 1,
        name: "Alice".to_owned(),
        email: "alice@example.com".to_owned(),
    };

    let bob = Person { id: 2, name: "Bob".to_owned(), email: "bob@example.com".to_owned() };

    let authors_vec = vec![alice, bob];

    let d = Document {
        id: 829472904,
        name: "stuff.txt".to_owned(),
        authors: authors_vec,
        content: generate_data(size),
    };
    proof {
        assert(people_view(d.authors@).len() == 2);
        assert(people_view(d.authors@)[0] =~= PersonV {
            id: 1u64,
            name: "Alice"@,
            email: "alice@example.com"@,
        });
        assert(people_view(d.authors@)[1] =~= PersonV {
            id: 2u64,
            name: "Bob"@,
            email: "bob@example.com"@,
        });
    }
    d
}

} // verus!
