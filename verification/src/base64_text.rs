//! The base64 text of a byte string.

use vstd::prelude::*;

verus! {

/// The text that `base64::encode` returns for `bytes`: the standard
/// alphabet, with padding.
pub uninterp spec fn base64_text(bytes: Seq<u8>) -> Seq<char>;

/// Calls `base64::encode`, which renders `bytes` with the standard engine.
/// The text depends on the bytes alone, and no other byte string has the
/// same text: base64 can be decoded. The call panics only where four thirds
/// of the length do not fit in `usize`, which the bound on the length rules
/// out.
#[verifier::external_body]
#[allow(deprecated)]
pub(crate) fn base64_encode(bytes: &Vec<u8>) -> (text: String)
    requires
        bytes@.len() <= isize::MAX,
    ensures
        text@ == base64_text(bytes@),
        forall|other: Seq<u8>| #[trigger] base64_text(other) == text@ ==> other == bytes@,
{
    base64::encode(bytes)
}

} // verus!
