use std::io::Read;

use util_lib::httputils::determine_encoding;
use util_lib::httputils::get_language;
use util_lib::httputils::lookup_mime;
use util_lib::httputils::HttpEncoding;
use util_lib::httputils::HttpMethod;
use util_lib::httputils::HttpResponseCodes;

#[test]
fn mime_lookup() {
    assert_eq!(lookup_mime("css"), "text/css");
    assert_eq!(lookup_mime("json"), "application/json");
    assert_eq!(lookup_mime("woff2"), "application/font-woff2");
    assert_eq!(lookup_mime("nonsense"), "text/html");
    assert_eq!(lookup_mime(""), "text/html");
}

#[test]
fn method_names_round_trip() {
    assert_eq!(HttpMethod::Get.as_str(), "GET");
    assert_eq!(HttpMethod::Undefined.as_str(), "");
    assert_eq!(HttpMethod::from_str("get"), HttpMethod::Get);
    assert_eq!(HttpMethod::from_str("PoSt"), HttpMethod::Post);
    assert_eq!(HttpMethod::from_str("SOCK"), HttpMethod::Sock);
    assert_eq!(HttpMethod::from_str("brew"), HttpMethod::Undefined);
    assert_eq!(HttpMethod::Put.str_value(), "PUT".to_string());
}

#[test]
fn status_codes() {
    assert_eq!(HttpResponseCodes::OK.code(), 200);
    assert_eq!(HttpResponseCodes::NotFound.code(), 404);
    assert_eq!(HttpResponseCodes::Imateapot.code(), 418);
    assert_eq!(HttpResponseCodes::NetworkAuthenticationRequired.code(), 511);
}

#[test]
fn encoding_tokens() {
    assert_eq!(HttpEncoding::Brotli.to_str(), "br");
    assert_eq!(HttpEncoding::Gzip.to_str(), "gzip");
    assert_eq!(HttpEncoding::Deflate.to_str(), "deflate");
    assert_eq!(HttpEncoding::Identity.to_str(), "identity");
}

#[test]
fn gzip_compression_round_trips() {
    let body = b"a body worth compressing, a body worth compressing";
    let packed = HttpEncoding::Gzip.compress(body);
    assert_ne!(packed, body.to_vec());
    let mut unpacked = Vec::new();
    flate2::read::GzDecoder::new(&packed[..])
        .read_to_end(&mut unpacked)
        .expect("gzip output should decode");
    assert_eq!(unpacked, body.to_vec());
}

#[test]
fn deflate_compression_round_trips() {
    let body = b"a body worth compressing, a body worth compressing";
    let packed = HttpEncoding::Deflate.compress(body);
    assert_ne!(packed, body.to_vec());
    let mut unpacked = Vec::new();
    flate2::read::DeflateDecoder::new(&packed[..])
        .read_to_end(&mut unpacked)
        .expect("deflate output should decode");
    assert_eq!(unpacked, body.to_vec());
}

#[test]
fn brotli_compression_round_trips() {
    let body = b"a body worth compressing, a body worth compressing";
    let packed = HttpEncoding::Brotli.compress(body);
    let mut unpacked = Vec::new();
    brotli::Decompressor::new(&packed[..], 4096)
        .read_to_end(&mut unpacked)
        .expect("brotli output should decode");
    assert_eq!(unpacked, body.to_vec());
}

#[test]
fn identity_compression_copies() {
    let body = b"plain";
    assert_eq!(HttpEncoding::Identity.compress(body), body.to_vec());
}

#[test]
fn encoding_negotiation() {
    assert_eq!(determine_encoding(None), HttpEncoding::Identity);
    assert_eq!(determine_encoding(Some(String::new())), HttpEncoding::Identity);
    assert_eq!(determine_encoding(Some("gzip, deflate".to_string())), HttpEncoding::Gzip);
    assert_eq!(determine_encoding(Some("br;q=0.5, gzip;q=0.9".to_string())), HttpEncoding::Gzip);
    assert_eq!(determine_encoding(Some("gzip;q=0.8, br".to_string())), HttpEncoding::Brotli);
    assert_eq!(determine_encoding(Some("GZIP".to_string())), HttpEncoding::Gzip);
    assert_eq!(determine_encoding(Some("identity;q=0, gzip;q=0".to_string())), HttpEncoding::Identity);
    assert_eq!(determine_encoding(Some("*;q=0.9, deflate;q=0.1".to_string())), HttpEncoding::Deflate);
    assert_eq!(determine_encoding(Some("br ; q=0.5 , gzip ; q=0.25".to_string())), HttpEncoding::Brotli);
    assert_eq!(determine_encoding(Some("gzip;q=abc".to_string())), HttpEncoding::Gzip);
    assert_eq!(determine_encoding(Some("unknown, things".to_string())), HttpEncoding::Identity);
}

#[test]
fn language_selection() {
    assert_eq!(get_language(String::new()), "en");
    assert_eq!(get_language("en-US,en;q=0.9".to_string()), "en");
    assert_eq!(get_language("fr-CA".to_string()), "fr");
    assert_eq!(get_language("EN-US".to_string()), "en");
    assert_eq!(get_language("12de,fr".to_string()), "de");
    assert_eq!(get_language("frX".to_string()), "frx");
}

#[test]
fn encoding_negotiation_exotic_qualities() {
    assert_eq!(determine_encoding(Some("gzip;q=-1".to_string())), HttpEncoding::Identity);
    assert_eq!(determine_encoding(Some("br;q=-0.5, gzip".to_string())), HttpEncoding::Gzip);
    assert_eq!(determine_encoding(Some("gzip;q=+0.5".to_string())), HttpEncoding::Gzip);
    assert_eq!(determine_encoding(Some("gzip;q=nan".to_string())), HttpEncoding::Identity);
    assert_eq!(determine_encoding(Some("gzip;q=NaN, br;q=0.1".to_string())), HttpEncoding::Brotli);
    assert_eq!(determine_encoding(Some("gzip;q=inf".to_string())), HttpEncoding::Gzip);
    assert_eq!(determine_encoding(Some("gzip;q=-inf, deflate".to_string())), HttpEncoding::Deflate);
    assert_eq!(determine_encoding(Some("br;q=1e-1, gzip;q=0.05".to_string())), HttpEncoding::Brotli);
    assert_eq!(determine_encoding(Some("gzip;q=2E2, br;q=150".to_string())), HttpEncoding::Gzip);
    assert_eq!(determine_encoding(Some("gzip;q=Infinity, br;q=5".to_string())), HttpEncoding::Gzip);
}

#[test]
fn language_selection_folds_unicode() {
    assert_eq!(get_language("fr\u{c9}".to_string()), "fr\u{e9}");
    assert_eq!(get_language("ab\u{39e},cd".to_string()), "ab\u{3be}");
}
