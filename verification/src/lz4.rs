//! The door to the `lz4_flex` crate.
//!
//! Nothing here is proved: the contract of [`decompress_size_prepended`] is
//! taken on trust, and says no more than that the decompressor's answer is a
//! function of the bytes it is given.

use vstd::prelude::*;

verus! {

/// The longest body that is handed to `lz4_flex`.
///
/// The decompressor adds up the bytes of a length field in a `u32`, and the
/// length to a position in a `usize`. In a body of at most 2^23 bytes no
/// length field reaches 2^31, so none of these sums can overflow.
pub const FAST_PATH_LIMIT: usize = 8_388_608;

/// What `lz4_flex::block::decompress_size_prepended` makes of `body`: the
/// bytes it returns, or `None` where it returns an error.
pub uninterp spec fn lz4_size_prepended(body: Seq<u8>) -> Option<Seq<u8>>;

/// An optional buffer with its bytes taken as a sequence.
pub open spec fn content(bytes: Option<Vec<u8>>) -> Option<Seq<u8>> {
    match bytes {
        Some(v) => Some(v@),
        None => None,
    }
}

/// Calls `lz4_flex::block::decompress_size_prepended` on `body`, a size
/// prefix followed by a block, and drops the error where it reports one.
///
/// Trusted: that the call returns, and that what it returns depends on the
/// bytes of `body` alone. The crate is built with its `safe-decode` feature:
/// the decompressor then tests every read and every write against the bounds
/// of its buffers and reports an error where one would be crossed. Bodies
/// over [`FAST_PATH_LIMIT`] are left out, since its sums of lengths are not
/// safe from overflow on those.
#[verifier::external_body]
pub(crate) fn decompress_size_prepended(body: &[u8]) -> (r: Option<Vec<u8>>)
    requires
        body@.len() <= FAST_PATH_LIMIT,
    ensures
        content(r) == lz4_size_prepended(body@),
{
    lz4_flex::block::decompress_size_prepended(body).ok()
}

} // verus!
