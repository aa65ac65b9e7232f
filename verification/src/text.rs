//! Bags of cells as text: the bytes of a bag in base64.

use base64::engine::general_purpose::STANDARD;
use base64::{DecodeError, Engine};
use crate::boc::{BagOfCells, boc_bytes, boc_parse, encodable};
use crate::boc_de::matches_spec;
use crate::boc_wire::BagOfCellsArgs;
use crate::cell::CellView;
use crate::error::{Error, ErrorKind, Failure};
use vstd::prelude::*;

verus! {

/// `base64::DecodeError`: why a text is no base64. Nothing is read from
/// it.
#[verifier::external_type_specification]
#[verifier::external_body]
pub struct ExDecodeError(DecodeError);

/// The bytes that a text stands for in base64, with the standard alphabet
/// and padding; `None` where the text is no base64.
pub uninterp spec fn base64_decoded(text: Seq<char>) -> Option<Seq<u8>>;

/// The text that stands for bytes in base64, with the standard alphabet and
/// padding.
pub uninterp spec fn base64_encoded(bytes: Seq<u8>) -> Seq<char>;

/// `Engine::decode` of the standard engine: the bytes that the text stands
/// for, or why it stands for none.
#[verifier::external_body]
fn decode_base64(text: &str) -> (r: Result<Vec<u8>, DecodeError>)
    ensures
        r is Ok <==> base64_decoded(text@) is Some,
        r matches Ok(bytes) ==> Some(bytes@) == base64_decoded(text@),
{
    STANDARD.decode(text)
}

/// `Engine::encode` of the standard engine: the text that stands for the
/// bytes.
#[verifier::external_body]
fn encode_base64(bytes: &[u8]) -> (text: String)
    ensures
        text@ == base64_encoded(bytes@),
{
    STANDARD.encode(bytes)
}

/// The graph that a text lays out: that of the bytes that the text stands
/// for in base64; `Corruption` where it stands for none.
pub open spec fn boc_parse_text(text: Seq<char>) -> Result<Seq<CellView>, Failure> {
    match base64_decoded(text) {
        None => Err(Failure::of(ErrorKind::Corruption)),
        Some(bytes) => boc_parse(bytes),
    }
}

impl BagOfCells {
    /// Reads the bag that a text in base64 lays out.
    pub fn parse_base64(text: &str) -> (r: Result<BagOfCells, Error>)
        ensures
            matches_spec(r, boc_parse_text(text@)),
    {
        match decode_base64(text) {
            Ok(bytes) => BagOfCells::parse(bytes.as_slice()),
            Err(_) => Err(Error::new(ErrorKind::Corruption)),
        }
    }

    /// Lays the bag out as text in base64; an error of kind `Custom` where
    /// it cannot be laid out.
    pub fn serialize_base64(&self, args: BagOfCellsArgs) -> (r: Result<String, Error>)
        ensures
            r is Ok <==> encodable(self.deep_view()),
            r matches Ok(text) ==> text@ == base64_encoded(boc_bytes(self.deep_view(), args)),
            r matches Err(e) ==> e@ == Failure::of(ErrorKind::Custom),
    {
        match self.serialize(args) {
            Ok(bytes) => Ok(encode_base64(bytes.as_slice())),
            Err(e) => Err(e),
        }
    }
}

} // verus!
