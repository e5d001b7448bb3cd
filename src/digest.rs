//! Hex text and request fingerprints.
use vstd::prelude::*;
use sha2::Digest;
use vstd::utf8::encode_utf8;

verus! {

/// The lowercase hex digit (as an ASCII byte) of a value below sixteen.
pub open spec fn hex_digit(n: u8) -> u8 {
    if n < 10 {
        (48 + n) as u8
    } else {
        (87 + n) as u8
    }
}

/// Two lowercase hex digits for each byte, high nibble first.
pub open spec fn hex_lower(b: Seq<u8>) -> Seq<u8> {
    Seq::new(
        2 * b.len(),
        |i: int|
            if i % 2 == 0 {
                hex_digit(b[i / 2] / 16)
            } else {
                hex_digit(b[i / 2] % 16)
            },
    )
}

/// `hex_lower` as text.
pub open spec fn hex_text(b: Seq<u8>) -> Seq<char> {
    hex_lower(b).map_values(|c: u8| c as char)
}

pub open spec fn is_hex_char(c: u8) -> bool {
    (48 <= c <= 57) || (65 <= c <= 70) || (97 <= c <= 102)
}

pub open spec fn hex_value(c: u8) -> u8 {
    if c <= 57 {
        (c - 48) as u8
    } else if c <= 70 {
        (c - 55) as u8
    } else {
        (c - 87) as u8
    }
}

/// The bytes that a sequence of hex digit pairs stands for.
pub open spec fn unhex(s: Seq<u8>) -> Seq<u8> {
    Seq::new(s.len() / 2, |i: int| (hex_value(s[2 * i]) * 16 + hex_value(s[2 * i + 1])) as u8)
}

/// Hex text of either case decodes when it has an even length and only hex digits.
pub open spec fn hex_decoded(s: Seq<u8>) -> Option<Seq<u8>> {
    if s.len() % 2 == 0 && forall|i: int| 0 <= i < s.len() ==> is_hex_char(#[trigger] s[i]) {
        Some(unhex(s))
    } else {
        None
    }
}

pub uninterp spec fn sha256_of(data: Seq<u8>) -> Seq<u8>;

/// Relies on sha2::Sha256::digest: the 32-byte SHA-256 digest, a function of the input alone.
#[verifier::external_body]
fn sha256(data: &[u8]) -> (r: Vec<u8>)
    ensures
        r@ == sha256_of(data@),
        r@.len() == 32,
{
    sha2::Sha256::digest(data).to_vec()
}

/// Relies on hex::encode: two lowercase hex digits for each byte, high nibble first.
#[verifier::external_body]
pub(crate) fn hex_encode(data: &[u8]) -> (r: String)
    ensures
        r@ == hex_text(data@),
{
    hex::encode(data)
}

/// Relies on hex::decode: `OddLength` on an odd length, `InvalidHexCharacter` on a
/// byte outside 0-9, a-f, A-F, and otherwise one byte for each pair of digits.
#[verifier::external_body]
pub(crate) fn hex_decode(text: &[u8]) -> (r: Option<Vec<u8>>)
    ensures
        match r {
            Some(v) => hex_decoded(text@) == Some(v@),
            None => hex_decoded(text@) is None,
        },
{
    hex::decode(text).ok()
}

/// The bytes that are hashed for a request: method, then URL, then the body if there is one.
pub open spec fn fingerprint_input(method: Seq<char>, url: Seq<char>, body: Option<Seq<u8>>) -> Seq<u8> {
    let head = encode_utf8(method) + encode_utf8(url);
    match body {
        Some(b) => head + b,
        None => head,
    }
}

/// The fingerprint of a request: lowercase hex of the SHA-256 digest of its method, URL and body.
pub open spec fn fingerprint_of(method: Seq<char>, url: Seq<char>, body: Option<Seq<u8>>) -> Seq<char> {
    hex_text(sha256_of(fingerprint_input(method, url, body)))
}

pub open spec fn opt_view(body: Option<&[u8]>) -> Option<Seq<u8>> {
    match body {
        Some(b) => Some(b@),
        None => None,
    }
}

/// Computes the fingerprint of a request from its method, URL and optional body.
/// Headers take no part in it.
pub fn fingerprint(method: &str, url: &str, body: Option<&[u8]>) -> (r: String)
    ensures
        r@ == fingerprint_of(method@, url@, opt_view(body)),
        r@.len() == 64,
{
    let mut input: Vec<u8> = Vec::new();
    input.extend_from_slice(method.as_bytes());
    input.extend_from_slice(url.as_bytes());
    match body {
        Some(b) => input.extend_from_slice(b),
        None => {},
    }
    assert(input@ =~= fingerprint_input(method@, url@, opt_view(body)));
    let digest = sha256(input.as_slice());
    hex_encode(digest.as_slice())
}

/// The fingerprint depends on the method, URL and body alone: requests that
/// agree in those three have the same fingerprint.
pub proof fn lemma_fingerprint_deterministic(
    m1: Seq<char>,
    u1: Seq<char>,
    b1: Option<Seq<u8>>,
    m2: Seq<char>,
    u2: Seq<char>,
    b2: Option<Seq<u8>>,
)
    requires
        m1 == m2,
        u1 == u2,
        b1 == b2,
    ensures
        fingerprint_of(m1, u1, b1) == fingerprint_of(m2, u2, b2),
{
}

} // verus!
