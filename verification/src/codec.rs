use vstd::prelude::*;

use crate::errors::Error;

verus! {

use vstd::string::StringSliceAdditionalSpecFns;

/// The UTF-8 bytes of a character sequence: the bytes a `&str` with that
/// view hands out.
pub open spec fn utf8_bytes(s: Seq<char>) -> Seq<u8> {
    vstd::utf8::encode_utf8(s)
}

/// What `data_encoding::BASE32.decode` yields on a byte string: the decoded
/// key bytes, or `None` where the input is not well-formed base32.
pub uninterp spec fn base32_decoded(s: Seq<u8>) -> Option<Seq<u8>>;

/// A byte of the RFC 4648 base32 alphabet proper (`A`..=`Z`, `2`..=`7`).
pub open spec fn base32_symbol(b: u8) -> bool {
    (65 <= b && b <= 90) || (50 <= b && b <= 55)
}

/// Whether a secret's bytes are decodable base32, as `decode` judges them.
/// A text longer than the decoder can address is never a valid secret.
pub open spec fn spec_secret_valid(s: Seq<u8>) -> bool {
    s.len() <= usize::MAX / 8 && base32_decoded(s) is Some
}

/// Relies on `data_encoding::BASE32.decode`: RFC 4648 base32 with `=`
/// padding and no ignored characters. Its result is a function of the input
/// alone; it fails on any byte outside the alphabet and padding, and on a
/// length that is not a multiple of 8. The decoder refuses to address more
/// than `usize::MAX / 8` input bytes, so longer input is kept away from it.
#[verifier::external_body]
fn base32_decode(secret: &str) -> (r: Option<Vec<u8>>)
    requires
        secret.spec_bytes().len() <= usize::MAX / 8,
    ensures
        r is Some <==> base32_decoded(secret.spec_bytes()) is Some,
        r is Some ==> r->0@ == base32_decoded(secret.spec_bytes())->0,
        (exists|i: int|
            0 <= i < secret.spec_bytes().len() && !base32_symbol(secret.spec_bytes()[i])
                && secret.spec_bytes()[i] != 61) ==> r is None,
        secret.spec_bytes().len() % 8 != 0 ==> r is None,
{
    data_encoding::BASE32.decode(secret.as_bytes()).ok()
}

/// Decode a base32-encoded secret into raw key bytes. Succeeds exactly on
/// well-formed base32; in particular any character outside the alphabet and
/// padding, or a length that is not a multiple of 8, is rejected.
pub fn decode(secret: &str) -> (r: Result<Vec<u8>, Error>)
    ensures
        r is Ok <==> spec_secret_valid(secret.spec_bytes()),
        r is Ok ==> r->Ok_0@ == base32_decoded(secret.spec_bytes())->0,
        r is Err ==> r->Err_0 == Error::InvalidSecret,
        (exists|i: int|
            0 <= i < secret.spec_bytes().len() && !base32_symbol(secret.spec_bytes()[i])
                && secret.spec_bytes()[i] != 61) ==> r is Err,
        secret.spec_bytes().len() % 8 != 0 ==> r is Err,
{
    let bytes_len = secret.as_bytes().len();
    if bytes_len > usize::MAX / 8 {
        return Err(Error::InvalidSecret);
    }
    match base32_decode(secret) {
        Some(key) => Ok(key),
        None => Err(Error::InvalidSecret),
    }
}

} // verus!
