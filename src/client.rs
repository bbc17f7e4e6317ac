use vstd::prelude::*;
use sha2::Digest;

verus! {

/// The lower-case hex digit for `n` (below 16).
pub open spec fn hex_digit(n: int) -> char {
    "0123456789abcdef"@[n]
}

/// `bytes` in lower-case hex, two digits per byte, high digit first.
pub open spec fn hex_text(bytes: Seq<u8>) -> Seq<char>
    decreases bytes.len(),
{
    if bytes.len() == 0 {
        Seq::empty()
    } else {
        hex_text(bytes.drop_last()) + seq![
            hex_digit(bytes.last() as int / 16),
            hex_digit(bytes.last() as int % 16),
        ]
    }
}

/// The decimal digit for `n` (below 10).
pub open spec fn decimal_digit(n: nat) -> char {
    "0123456789"@[n as int]
}

/// `n` in decimal, without leading zeros.
pub open spec fn decimal(n: nat) -> Seq<char>
    decreases n,
{
    if n < 10 {
        seq![decimal_digit(n)]
    } else {
        decimal(n / 10).push(decimal_digit(n % 10))
    }
}

/// The SHA-256 digest of the UTF-8 encoding of `text`.
pub uninterp spec fn sha256_of(text: Seq<char>) -> Seq<u8>;

/// Relies on sha2::Sha256 (through `Digest::digest`): the 32-byte SHA-256
/// digest of the text's UTF-8 bytes.
#[verifier::external_body]
fn sha256_digest(text: &str) -> (r: Vec<u8>)
    ensures
        r@ == sha256_of(text@),
        r@.len() == 32,
{
    sha2::Sha256::digest(text.as_bytes()).to_vec()
}

/// Relies on hex::encode: two lower-case hex digits per byte, in order.
#[verifier::external_body]
fn hex_encode(bytes: &[u8]) -> (r: String)
    ensures
        r@ == hex_text(bytes@),
{
    hex::encode(bytes)
}

/// Relies on u32's `Display` (through `to_string`): decimal digits, no
/// leading zeros.
#[verifier::external_body]
fn decimal_text(n: u32) -> (r: String)
    ensures
        r@ == decimal(n as nat),
{
    n.to_string()
}

/// A digest written out in lower-case hex.
pub fn digest_hex(digest: &[u8]) -> (r: String)
    ensures
        r@ == hex_text(digest@),
        r@.len() == 2 * digest@.len(),
{
    proof {
        lemma_hex_text_len(digest@);
    }
    hex_encode(digest)
}

/// The hex SHA-256 digest of a user name, from which a client derives the
/// user's avatar.
pub fn sha256_username(username: &str) -> (r: String)
    ensures
        r@ == hex_text(sha256_of(username@)),
        r@.len() == 64,
{
    let digest = sha256_digest(username);
    digest_hex(digest.as_slice())
}

/// The time of day as a client shows it: hour and minute in decimal, joined
/// by ':', neither padded ("9:5").
pub fn clock_label(hour: u32, minute: u32) -> (r: String)
    ensures
        r@ == decimal(hour as nat) + ":"@ + decimal(minute as nat),
{
    let mut label = decimal_text(hour);
    label.append(":");
    let m = decimal_text(minute);
    label.append(m.as_str());
    label
}

/// Hex text has two digits per byte.
pub proof fn lemma_hex_text_len(bytes: Seq<u8>)
    ensures
        hex_text(bytes).len() == 2 * bytes.len(),
    decreases bytes.len(),
{
    if bytes.len() > 0 {
        lemma_hex_text_len(bytes.drop_last());
    }
}

} // verus!
