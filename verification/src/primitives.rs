//! The calls into outside crates that the library makes, each behind a
//! small function whose contract is taken on trust.

use vstd::prelude::*;
use sha3::Digest;

verus! {

/// Byte `i` of the SHA3-512 digest of `data`, as the `sha3` crate computes it.
pub uninterp spec fn sha3_512_byte(data: Seq<u8>, i: int) -> u8;

/// The SHA3-512 digest of `data`: 64 bytes (the hasher's output size is `U64`).
pub open spec fn sha3_512(data: Seq<u8>) -> Seq<u8> {
    Seq::new(64, |i: int| sha3_512_byte(data, i))
}

/// `sha3::Sha3_512`: a fresh hasher fed with `data` and finalised.
/// Trusted: the digest is 64 bytes long and its bytes are `sha3_512_byte`
/// of the input, a function of the input bytes alone.
#[verifier::external_body]
pub(crate) fn sha3_512_digest(data: &[u8]) -> (digest: Vec<u8>)
    ensures
        digest@.len() == 64,
        forall|i: int| 0 <= i < 64 ==> #[trigger] digest@[i] == sha3_512_byte(data@, i),
{
    let mut hasher = sha3::Sha3_512::new();
    hasher.update(data);
    hasher.finalize().to_vec()
}

/// `chrono::DateTime::<Utc>::from(SystemTime::now()).timestamp_millis()`:
/// milliseconds since the Unix epoch, negative for a clock set before 1970.
/// Nothing is promised of the result: it is the time of the call. chrono's
/// conversion handles a clock before the epoch; it would stop only for a
/// clock beyond its range of about 262,000 years either side of 1970, which
/// lies outside what the system clock holds (Linux keeps it as signed 64-bit
/// nanoseconds, within 292 years of 1970).
#[verifier::external_body]
pub(crate) fn utc_now_millis() -> i64 {
    chrono::DateTime::<chrono::Utc>::from(std::time::SystemTime::now()).timestamp_millis()
}

} // verus!
