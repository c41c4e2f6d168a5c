//! Random identifiers and their text forms, from the `uuid` crate.
use crate::support::num_text::hex;
use vstd::prelude::*;

verus! {

/// The 36 characters of an identifier: its 32 hexadecimal digits in groups of 8, 4, 4, 4 and
/// 12, with hyphens between.
pub open spec fn hyphenated(id: Seq<u8>) -> Seq<char> {
    let h = hex(id);
    h.subrange(0, 8) + "-"@ + h.subrange(8, 12) + "-"@ + h.subrange(12, 16) + "-"@ + h.subrange(16, 20) + "-"@
        + h.subrange(20, 32)
}

/// `Uuid::new_v4`, as its sixteen bytes: random but for the marks of version 4 and its variant.
#[verifier::external_body]
fn fresh_id() -> (r: [u8; 16])
    ensures
        r[6] / 16 == 4,
        r[8] / 64 == 2,
{
    uuid::Uuid::new_v4().into_bytes()
}

/// Whether the generator is what gave an identifier.
pub closed spec fn drawn(id: [u8; 16]) -> bool {
    call_ensures(fresh_id, (), id)
}

/// Whether an identifier was drawn and bears the marks of version 4 and its variant.
pub open spec fn is_random_id(id: [u8; 16]) -> bool {
    drawn(id) && id[6] / 16 == 4 && id[8] / 64 == 2
}

/// A random identifier.
pub(crate) fn random_id() -> (r: [u8; 16])
    ensures
        is_random_id(r),
{
    fresh_id()
}

/// `Uuid::simple`: the bytes in lower-case hexadecimal.
#[verifier::external_body]
pub(crate) fn simple_text(id: &[u8; 16]) -> (r: String)
    ensures
        r@ == hex(id@),
{
    uuid::Uuid::from_bytes(*id).simple().to_string()
}

/// `Uuid::hyphenated`: the bytes in lower-case hexadecimal, in groups.
#[verifier::external_body]
pub(crate) fn hyphenated_text(id: &[u8; 16]) -> (r: String)
    ensures
        r@ == hyphenated(id@),
{
    uuid::Uuid::from_bytes(*id).hyphenated().to_string()
}

} // verus!
