//! Backend binding: the index-based protocol over the little-endian
//! fixed-width envelope.

use crate::entry::DecodeError;
use crate::fixed_wire;
use crate::types::{Document, DocumentV};
use vstd::prelude::*;

verus! {

/// The wire bytes of a document in this backend.
pub open spec fn spec_encode(d: DocumentV) -> Seq<u8> {
    fixed_wire::ser_document(false, d)
}

/// The whole-buffer decode of this backend.
pub open spec fn spec_decode(b: Seq<u8>) -> Result<DocumentV, DecodeError> {
    fixed_wire::spec_decode(false, b)
}

pub fn encode(d: &Document) -> (r: Vec<u8>)
    ensures
        r@ == spec_encode(d@),
{
    fixed_wire::encode_with(false, d)
}

pub fn decode(bytes: &[u8]) -> (r: Result<Document, DecodeError>)
    ensures
        match r {
            Ok(d) => spec_decode(bytes@) == Ok::<DocumentV, DecodeError>(d@),
            Err(e) => spec_decode(bytes@) == Err::<DocumentV, DecodeError>(e),
        },
{
    fixed_wire::decode_with(false, bytes)
}

/// Decode one document from the front of the buffer, leaving any trailing
/// input to the caller.
pub fn decode_prefix(bytes: &[u8]) -> (r: Result<(Document, usize), DecodeError>)
    ensures
        match r {
            Ok(du) => du.1 <= bytes@.len() && fixed_wire::sp_document(false, bytes@) == Ok::<
                (DocumentV, Seq<u8>),
                DecodeError,
            >((du.0@, bytes@.skip(du.1 as int))),
            Err(e) => fixed_wire::sp_document(false, bytes@) == Err::<
                (DocumentV, Seq<u8>),
                DecodeError,
            >(e),
        },
{
    fixed_wire::decode_prefix_with(false, bytes)
}

/// Round trip: decoding this backend's encoding of any representable
/// document yields exactly that document.
pub proof fn lemma_round_trip(d: DocumentV)
    requires
        fixed_wire::document_bounded(d),
    ensures
        spec_decode(spec_encode(d)) == Ok::<DocumentV, DecodeError>(d),
{
    fixed_wire::lemma_round_trip(false, d);
}

} // verus!
