use vstd::prelude::*;

verus! {

/// A decimal digit character.
pub open spec fn digit_char(c: char) -> bool {
    '0' <= c && c <= '9'
}

/// The eight digit characters that `totp_lite::totp::<Sha1>` yields for a
/// key and a 30-second counter.
pub uninterp spec fn hotp_digits(key: Seq<u8>, counter: u64) -> Seq<char>;

/// The 6-digit code for a key and a 30-second counter: the last six of the
/// eight digits the HMAC-based derivation yields for that window.
pub open spec fn spec_code(key: Seq<u8>, counter: u64) -> Seq<char> {
    hotp_digits(key, counter).subrange(2, 8)
}

/// Relies on `totp_lite::totp::<Sha1>`: HMAC-SHA1 over the 8-byte
/// big-endian counter `seconds / 30`, dynamic truncation, reduction modulo
/// 10^8, zero-padded to 8 decimal digits. The result is a function of the
/// key and of `seconds / 30` alone, and the call returns for every key.
#[verifier::external_body]
fn totp_sha1(key: &[u8], seconds: u64) -> (r: String)
    ensures
        r@ == hotp_digits(key@, seconds / 30),
        r@.len() == 8,
        forall|i: int| 0 <= i < r@.len() ==> digit_char(#[trigger] r@[i]),
{
    totp_lite::totp::<totp_lite::Sha1>(key, seconds)
}

/// Compute the 6-digit code for a raw key and a Unix timestamp: exactly six
/// ASCII digits, determined by the key and the 30-second window alone.
pub fn generate(key: &[u8], seconds: u64) -> (code: String)
    ensures
        code@ == spec_code(key@, seconds / 30),
        code@.len() == 6,
        forall|i: int| 0 <= i < code@.len() ==> digit_char(#[trigger] code@[i]),
{
    let eight = totp_sha1(key, seconds);
    let code = eight.as_str().substring_char(2, 8).to_owned();
    proof {
        assert forall|i: int| 0 <= i < code@.len() implies digit_char(#[trigger] code@[i]) by {
            assert(code@[i] == eight@[i + 2]);
        }
    }
    code
}

/// Two timestamps in one 30-second window yield the same code for every
/// key; the code changes only when the window does.
pub proof fn lemma_same_window_same_code(key: Seq<u8>, t1: u64, t2: u64)
    requires
        t1 / 30 == t2 / 30,
    ensures
        spec_code(key, t1 / 30) == spec_code(key, t2 / 30),
{
}

/// How many seconds the window of a timestamp has left: always between 1
/// and 30, and exactly 30 on a window boundary.
pub fn seconds_remaining(seconds: u64) -> (r: u64)
    ensures
        r == 30 - seconds % 30,
        1 <= r <= 30,
        (r == 30) <==> (seconds % 30 == 0),
{
    30 - (seconds % 30)
}

} // verus!
