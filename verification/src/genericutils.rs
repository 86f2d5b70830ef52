//! Stateless helpers: base64 encoding and decoding, MD5 digests, TOTP
//! tokens, random identifiers.  Every call into an outside crate sits
//! behind a small trusted wrapper whose contract names what the call
//! returns; everything around the calls is verified.
use base64::Engine;
use rand::Rng;
use vstd::prelude::*;
use vstd::string::StringSliceAdditionalSpecFns;

verus! {

// ---------------------------------------------------------------------------
// Names for what the outside calls return
// ---------------------------------------------------------------------------

pub uninterp spec fn b64_no_pad_encoding(bytes: Seq<u8>) -> Seq<char>;

/// The length of an unpadded base64 encoding of `n` bytes: four
/// characters per complete three-byte chunk, two or three for a
/// remainder of one or two bytes.
pub open spec fn b64_no_pad_len(n: int) -> int {
    (n / 3) * 4 + (if n % 3 == 0 {
        0int
    } else if n % 3 == 1 {
        2int
    } else {
        3int
    })
}

pub uninterp spec fn b64_standard_decoding(s: Seq<char>) -> Seq<u8>;

pub uninterp spec fn b64_standard_no_pad_decoding(s: Seq<char>) -> Seq<u8>;

pub uninterp spec fn b64_url_safe_decoding(s: Seq<char>) -> Seq<u8>;

pub uninterp spec fn b64_url_safe_no_pad_decoding(s: Seq<char>) -> Seq<u8>;

pub uninterp spec fn md5_hex(bytes: Seq<u8>) -> Seq<char>;

/// A lower-case hexadecimal digit.
pub open spec fn is_lower_hex_digit(c: char) -> bool {
    (48 <= (c as u32) && (c as u32) <= 57) || (97 <= (c as u32) && (c as u32) <= 102)
}

pub uninterp spec fn utf8_lossy(bytes: Seq<u8>) -> Seq<char>;

pub uninterp spec fn totp_sha1_6_30(secret: Seq<u8>, step: u64) -> Seq<char>;

/// An ASCII decimal digit.
pub open spec fn is_ascii_digit_char(c: char) -> bool {
    48 <= (c as u32) && (c as u32) <= 57
}

// ---------------------------------------------------------------------------
// Base64
// ---------------------------------------------------------------------------

/// Relies on base64's STANDARD_NO_PAD engine: the encoding is a function
/// of the input bytes alone, of the documented unpadded length.  The
/// engine panics only when that length cannot fit in usize, which the
/// caller rules out.
#[verifier::external_body]
pub fn b64_encode_bytes(bytesin: &[u8]) -> (r: String)
    requires
        bytesin@.len() <= (usize::MAX / 4) * 3,
    ensures
        r@ == b64_no_pad_encoding(bytesin@),
        r@.len() == b64_no_pad_len(bytesin@.len() as int),
{
    base64::engine::general_purpose::STANDARD_NO_PAD.encode(bytesin)
}

/// Encodes the UTF-8 bytes of a string with the standard alphabet and no
/// padding.
pub fn b64_encode(stringin: &str) -> (r: String)
    requires
        stringin.spec_bytes().len() <= (usize::MAX / 4) * 3,
    ensures
        r@ == b64_no_pad_encoding(stringin.spec_bytes()),
        r@.len() == b64_no_pad_len(stringin.spec_bytes().len() as int),
{
    let orig = stringin.as_bytes();
    b64_encode_bytes(orig)
}

/// Relies on base64's STANDARD engine: decoding is a function of the
/// input alone; an input it rejects is mapped to the empty byte vector.
#[verifier::external_body]
fn b64_decode_standard(stringin: &str) -> (r: Vec<u8>)
    ensures
        r@ == b64_standard_decoding(stringin@),
        stringin@.len() == 0 ==> r@.len() == 0,
{
    match base64::engine::general_purpose::STANDARD.decode(stringin) {
        Ok(b) => b,
        Err(_) => Vec::new(),
    }
}

/// Relies on base64's STANDARD_NO_PAD engine; see `b64_decode_standard`.
#[verifier::external_body]
fn b64_decode_standard_no_pad(stringin: &str) -> (r: Vec<u8>)
    ensures
        r@ == b64_standard_no_pad_decoding(stringin@),
        stringin@.len() == 0 ==> r@.len() == 0,
{
    match base64::engine::general_purpose::STANDARD_NO_PAD.decode(stringin) {
        Ok(b) => b,
        Err(_) => Vec::new(),
    }
}

/// Relies on base64's URL_SAFE engine; see `b64_decode_standard`.
#[verifier::external_body]
fn b64_decode_url_safe(stringin: &str) -> (r: Vec<u8>)
    ensures
        r@ == b64_url_safe_decoding(stringin@),
        stringin@.len() == 0 ==> r@.len() == 0,
{
    match base64::engine::general_purpose::URL_SAFE.decode(stringin) {
        Ok(b) => b,
        Err(_) => Vec::new(),
    }
}

/// Relies on base64's URL_SAFE_NO_PAD engine; see `b64_decode_standard`.
#[verifier::external_body]
fn b64_decode_url_safe_no_pad(stringin: &str) -> (r: Vec<u8>)
    ensures
        r@ == b64_url_safe_no_pad_decoding(stringin@),
        stringin@.len() == 0 ==> r@.len() == 0,
{
    match base64::engine::general_purpose::URL_SAFE_NO_PAD.decode(stringin) {
        Ok(b) => b,
        Err(_) => Vec::new(),
    }
}

/// What `b64_decode` returns: the first of the four engines, tried in a
/// fixed order, whose decoding is non-empty; else empty.
pub open spec fn spec_b64_decode(s: Seq<char>) -> Seq<u8> {
    if b64_standard_decoding(s).len() > 0 {
        b64_standard_decoding(s)
    } else if b64_standard_no_pad_decoding(s).len() > 0 {
        b64_standard_no_pad_decoding(s)
    } else if b64_url_safe_decoding(s).len() > 0 {
        b64_url_safe_decoding(s)
    } else {
        b64_url_safe_no_pad_decoding(s)
    }
}

/// Decodes with the standard engine, falling back in turn to the
/// unpadded, URL-safe, and unpadded URL-safe engines whenever the
/// previous attempt yielded nothing.
pub fn b64_decode(stringin: &str) -> (r: Vec<u8>)
    ensures
        r@ == spec_b64_decode(stringin@),
{
    let mut result = b64_decode_standard(stringin);
    if result.is_empty() {
        result = b64_decode_standard_no_pad(stringin);
        if result.is_empty() {
            result = b64_decode_url_safe(stringin);
            if result.is_empty() {
                result = b64_decode_url_safe_no_pad(stringin);
            }
        }
    }
    result
}

/// Relies on String::from_utf8_lossy: a function of the bytes alone, the
/// identity (as characters) on valid UTF-8.
#[verifier::external_body]
fn utf8_lossy_string(bytes: &Vec<u8>) -> (r: String)
    ensures
        r@ == utf8_lossy(bytes@),
        vstd::utf8::valid_utf8(bytes@) ==> r@ == vstd::utf8::decode_utf8(bytes@),
        bytes@.len() == 0 ==> r@.len() == 0,
{
    String::from_utf8_lossy(bytes).to_string()
}

/// Decodes base64 as `b64_decode` does, then reads the bytes as UTF-8,
/// replacing invalid sequences.
pub fn b64_decode_tostring(stringin: &str) -> (r: String)
    ensures
        r@ == utf8_lossy(spec_b64_decode(stringin@)),
{
    let bytes = b64_decode(stringin);
    utf8_lossy_string(&bytes)
}

// ---------------------------------------------------------------------------
// Digests
// ---------------------------------------------------------------------------

/// Relies on md5::compute and its lower-hex rendering: a 16-byte digest
/// printed as 32 lower-case hex characters, a function of the input
/// bytes alone.
#[verifier::external_body]
pub fn md5(bytes: &[u8]) -> (r: String)
    ensures
        r@ == md5_hex(bytes@),
        r@.len() == 32,
        forall|i: int| 0 <= i < 32 ==> is_lower_hex_digit(#[trigger] r@[i]),
{
    let digest = md5::compute(bytes);
    format!("{:x}", digest)
}

/// The MD5 digest of a string's UTF-8 bytes, in lower-case hex.
pub fn hash(stringin: &str) -> (r: String)
    ensures
        r@ == md5_hex(stringin.spec_bytes()),
        r@.len() == 32,
        forall|i: int| 0 <= i < 32 ==> is_lower_hex_digit(#[trigger] r@[i]),
{
    md5(stringin.as_bytes())
}

// ---------------------------------------------------------------------------
// One-time passwords
// ---------------------------------------------------------------------------

/// Relies on totp-rs with SHA-1, 6 digits, skew 1 and a 30-second step:
/// the token signs the timestamp divided by the step, so it is a function
/// of the secret and the 30-second step number alone, rendered as exactly
/// 6 zero-padded decimal digits.  The builder rejects secrets shorter
/// than 128 bits, which the caller rules out.
#[verifier::external_body]
fn totp_sha1_token(secret: &[u8], time: u64) -> (r: String)
    requires
        secret@.len() >= 16,
    ensures
        r@ == totp_sha1_6_30(secret@, time / 30),
        r@.len() == 6,
        forall|i: int| 0 <= i < 6 ==> is_ascii_digit_char(#[trigger] r@[i]),
{
    let totp = totp_rs::Builder::new()
        .with_algorithm(totp_rs::Algorithm::SHA1)
        .with_digits(6)
        .with_skew(1)
        .with_step_duration(30)
        .with_secret(secret.to_vec())
        .build()
        .unwrap();
    format!("{}", totp.generate(time))
}

/// The 6-digit TOTP token for the given shared secret at the given epoch
/// second (SHA-1, 30-second period): two epochs falling in the same
/// 30-second step always yield the same token.
pub fn get_topt_token(secret: &str, epoch: i64) -> (r: String)
    requires
        secret.spec_bytes().len() >= 16,
        0 <= epoch,
    ensures
        r@ == totp_sha1_6_30(secret.spec_bytes(), (epoch as u64) / 30),
        r@.len() == 6,
        forall|i: int| 0 <= i < 6 ==> is_ascii_digit_char(#[trigger] r@[i]),
{
    totp_sha1_token(secret.as_bytes(), epoch as u64)
}

// ---------------------------------------------------------------------------
// Random identifiers
// ---------------------------------------------------------------------------

/// An ASCII letter or digit.
pub open spec fn is_ascii_alnum(c: char) -> bool {
    ('a' <= c && c <= 'z') || ('A' <= c && c <= 'Z') || ('0' <= c && c <= '9')
}

/// Relies on rand's thread-local generator with the Alphanumeric
/// distribution: exactly `count` characters, each an ASCII letter or
/// digit; which ones is up to chance.
#[verifier::external_body]
pub fn random_alpha(count: i64) -> (r: String)
    requires
        0 <= count,
    ensures
        r@.len() == count as int,
        forall|i: int| 0 <= i < r@.len() ==> is_ascii_alnum(#[trigger] r@[i]),
{
    rand::thread_rng()
        .sample_iter(&rand::distributions::Alphanumeric)
        .take(count.try_into().unwrap())
        .map(char::from)
        .collect()
}

/// Relies on uuid::Uuid::now_v7 and its hyphenated rendering: 36
/// characters with hyphens at positions 8, 13, 18 and 23 and lower-case
/// hex digits everywhere else; which identifier comes back depends on
/// the clock and on chance.
#[verifier::external_body]
fn uuid_v7_string() -> (r: String)
    ensures
        r@.len() == 36,
        r@[8] == '-' && r@[13] == '-' && r@[18] == '-' && r@[23] == '-',
        forall|i: int|
            0 <= i < 36 && i != 8 && i != 13 && i != 18 && i != 23 ==> is_lower_hex_digit(
                #[trigger] r@[i],
            ),
{
    uuid::Uuid::now_v7().to_string()
}

/// A fresh 32-character identifier: a version-7 UUID with its hyphens
/// taken out.
pub fn unique_id() -> (r: String)
    ensures
        r@.len() == 32,
        forall|i: int| 0 <= i < 32 ==> is_lower_hex_digit(#[trigger] r@[i]),
{
    let u = uuid_v7_string();
    let s = u.as_str();
    let mut out = s.substring_char(0, 8).to_owned();
    out.append(s.substring_char(9, 13));
    out.append(s.substring_char(14, 18));
    out.append(s.substring_char(19, 23));
    out.append(s.substring_char(24, 36));
    out
}

} // verus!
