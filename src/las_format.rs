//! The fixed part of the LAS container: signature, public header fields, and
//! the classification codes of point records.
use vstd::prelude::*;

verus! {

/// Bytes needed to read the public header fields used here.
pub const LAS_HEADER_MIN_BYTES: usize = 111;

/// Offset of the point data's byte offset (`u32`, little-endian).
pub const LAS_OFFSET_TO_POINT_DATA: usize = 94;

/// Offset of the legacy point record count (`u32`, little-endian).
pub const LAS_NUMBER_OF_POINT_RECORDS: usize = 107;

/// Length of the file signature `LASF`.
pub const LAS_SIGNATURE_LEN: usize = 4;

/// Header fields needed to fetch and read the point records.
#[derive(Clone, Copy, Debug, PartialEq, Eq, Structural)]
pub struct LasHeaderParsed {
    /// Byte offset from the start of the file where point data begins.
    pub offset_to_point_data: u32,
    /// Number of point records the header declares.
    pub number_of_points: u64,
}

#[derive(Clone, Copy, Debug, PartialEq, Eq, Structural)]
pub enum HeaderError {
    /// Fewer bytes than the header fields need.
    TooShort,
    /// The buffer does not start with `LASF`.
    BadSignature,
}

/// The bytes of `LASF`.
pub open spec fn las_signature() -> Seq<u8> {
    seq![76u8, 65u8, 83u8, 70u8]
}

pub open spec fn has_signature_spec(b: Seq<u8>) -> bool {
    b.len() >= 4 && b.subrange(0, 4) == las_signature()
}

/// The little-endian `u32` at `b[i..i + 4]`.
pub open spec fn u32_le(b: Seq<u8>, i: int) -> int {
    b[i] + 256 * b[i + 1] + 65536 * b[i + 2] + 16777216 * b[i + 3]
}

pub open spec fn header_of(b: Seq<u8>) -> Result<LasHeaderParsed, HeaderError> {
    if b.len() < LAS_HEADER_MIN_BYTES {
        Err(HeaderError::TooShort)
    } else if !has_signature_spec(b) {
        Err(HeaderError::BadSignature)
    } else {
        Ok(
            LasHeaderParsed {
                offset_to_point_data: u32_le(b, LAS_OFFSET_TO_POINT_DATA as int) as u32,
                number_of_points: u32_le(b, LAS_NUMBER_OF_POINT_RECORDS as int) as u64,
            },
        )
    }
}

/// Whether `bytes` starts with the signature `LASF`.
pub fn has_las_signature(bytes: &[u8]) -> (r: bool)
    ensures
        r == has_signature_spec(bytes@),
{
    if bytes.len() < LAS_SIGNATURE_LEN {
        return false;
    }
    let r = bytes[0] == 76u8 && bytes[1] == 65u8 && bytes[2] == 83u8 && bytes[3] == 70u8;
    assert(r == (bytes@.subrange(0, 4) =~= las_signature()));
    r
}

fn read_u32_le(b: &[u8], i: usize) -> (r: u32)
    requires
        i + 4 <= b@.len(),
    ensures
        r == u32_le(b@, i as int),
{
    b[i] as u32 + (b[i + 1] as u32) * 256 + (b[i + 2] as u32) * 65536 + (b[i + 3] as u32) * 16777216
}

/// Reads the point data offset and the declared point count from the start
/// of a LAS or LAZ file (at least 111 bytes, starting with `LASF`).
pub fn parse_las_header_from_slice(buf: &[u8]) -> (r: Result<LasHeaderParsed, HeaderError>)
    ensures
        r == header_of(buf@),
{
    if buf.len() < LAS_HEADER_MIN_BYTES {
        return Err(HeaderError::TooShort);
    }
    if !has_las_signature(buf) {
        return Err(HeaderError::BadSignature);
    }
    let offset_to_point_data = read_u32_le(buf, LAS_OFFSET_TO_POINT_DATA);
    let number_of_points = read_u32_le(buf, LAS_NUMBER_OF_POINT_RECORDS) as u64;
    Ok(LasHeaderParsed { offset_to_point_data, number_of_points })
}

/// Whether a cached file's bytes may be trusted: long enough for a header and
/// starting with the signature.
pub fn verify_cached_bytes(bytes: &[u8]) -> (r: bool)
    ensures
        r == (bytes@.len() >= LAS_HEADER_MIN_BYTES && has_signature_spec(bytes@)),
{
    bytes.len() >= LAS_HEADER_MIN_BYTES && has_las_signature(bytes)
}

/// Classification codes kept as they are; any other code is read as
/// unclassified.
pub const LAST_KNOWN_CLASS: u8 = 9;

/// The code for unclassified points.
pub const UNCLASSIFIED: u8 = 1;

pub open spec fn canonical_class_spec(code: u8) -> u8 {
    if code <= LAST_KNOWN_CLASS { code } else { UNCLASSIFIED }
}

/// Maps a record's classification code to the canonical set: never
/// classified, unclassified, ground, the three vegetation heights, building,
/// low point, model key point and water keep their code; the rest become
/// unclassified.
pub fn canonical_class(code: u8) -> (r: u8)
    ensures
        r == canonical_class_spec(code),
{
    if code <= LAST_KNOWN_CLASS {
        code
    } else {
        UNCLASSIFIED
    }
}

/// The classification of a point as the `las` crate decodes it.
#[verifier::external_type_specification]
#[verifier::external_body]
pub struct ExClassification(las::point::Classification);

/// The ASPRS code of a classification, as `las` gives it.
pub uninterp spec fn class_code_of(c: las::point::Classification) -> u8;

/// Relies on `las`'s `From<Classification> for u8`: the ASPRS code of a
/// classification, a function of the classification alone.
#[verifier::external_body]
fn las_class_code(c: &las::point::Classification) -> (r: u8)
    ensures
        r == class_code_of(*c),
{
    u8::from(*c)
}

/// The canonical code of a decoded point's classification.
pub fn classification_to_u8(c: &las::point::Classification) -> (r: u8)
    ensures
        r == canonical_class_spec(class_code_of(*c)),
        r <= LAST_KNOWN_CLASS,
{
    canonical_class(las_class_code(c))
}

} // verus!
