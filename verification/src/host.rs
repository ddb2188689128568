//! Conversions between the host's string types and plain bytes. These are
//! the only places where the library leans on std's UTF-8 machinery instead
//! of its own verified codec.
use vstd::prelude::*;
use vstd::string::StringSliceAdditionalSpecFns;
use vstd::utf8::*;

verus! {

/// Relies on std's `String::into_bytes`: returns the string's UTF-8 bytes,
/// which are the concatenated encodings of its characters.
#[verifier::external_body]
pub(crate) fn string_into_bytes(s: String) -> (v: Vec<u8>)
    ensures
        v@ == encode_utf8(s@),
{
    s.into_bytes()
}

/// Relies on std's `str::from_utf8`: `Ok` exactly on well-formed UTF-8,
/// borrowing the bytes as the text they encode.
#[verifier::external_body]
pub(crate) fn bytes_as_str(v: &[u8]) -> (r: &str)
    requires
        valid_utf8(v@),
    ensures
        r.spec_bytes() == v@,
{
    std::str::from_utf8(v).unwrap()
}

} // verus!
