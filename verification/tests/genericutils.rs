use util_lib::genericutils::b64_decode;
use util_lib::genericutils::b64_decode_tostring;
use util_lib::genericutils::b64_encode;
use util_lib::genericutils::b64_encode_bytes;
use util_lib::genericutils::get_topt_token;
use util_lib::genericutils::hash;
use util_lib::genericutils::md5;
use util_lib::genericutils::random_alpha;
use util_lib::genericutils::unique_id;

#[test]
fn base64tests() {
    // inject signing items into the list...

    let stringtotest = "Hello World!".to_string();

    let encoded = b64_encode(&stringtotest);
    let decoded = b64_decode_tostring(&encoded);

    assert_eq!(stringtotest, decoded);
}

#[test]
fn base64_known_vectors() {
    assert_eq!(b64_encode("Hello World!"), "SGVsbG8gV29ybGQh");
    assert_eq!(b64_encode_bytes(b"foob"), "Zm9vYg");
    assert_eq!(b64_encode(""), "");
    assert_eq!(b64_decode("Zm9vYg"), b"foob".to_vec());
    assert_eq!(b64_decode("Zm9vYg=="), b"foob".to_vec());
    assert_eq!(b64_decode_tostring("aGVsbG8"), "hello");
}

#[test]
fn md5_known_vectors() {
    assert_eq!(md5(b""), "d41d8cd98f00b204e9800998ecf8427e");
    assert_eq!(md5(b"abc"), "900150983cd24fb0d6963f7d28e17f72");
    assert_eq!(hash("abc"), "900150983cd24fb0d6963f7d28e17f72");
    assert_eq!(hash("").len(), 32);
}

#[test]
fn totp_reference_vector() {
    // The shared secret and timestamp of the SHA-1 test vectors in the
    // TOTP specification; the 6-digit form of the expected token.
    let token = get_topt_token("12345678901234567890", 59);
    assert_eq!(token, "287082");
    assert_eq!(get_topt_token("12345678901234567890", 59), token);
}

#[test]
fn random_alpha_shape() {
    let s = random_alpha(24);
    assert_eq!(s.len(), 24);
    assert!(s.chars().all(|c| c.is_ascii_alphanumeric()));
    assert_eq!(random_alpha(0), "");
}

#[test]
fn unique_id_shape() {
    let id = unique_id();
    assert_eq!(id.len(), 32);
    assert!(!id.contains('-'));
    assert_ne!(unique_id(), id);
}

#[test]
fn base64_decode_falls_back_to_url_safe() {
    assert_eq!(b64_decode("-_-_"), vec![0xFB, 0xFF, 0xBF]);
    assert!(b64_decode("!!!").is_empty());
}
