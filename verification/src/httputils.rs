//! HTTP-flavoured tables and helpers: response status codes, mime types,
//! request methods, and content encodings.
use std::io::Write;
use vstd::prelude::*;

verus! {

use crate::btree::str_eq;

// ---------------------------------------------------------------------------
// Response status codes
// ---------------------------------------------------------------------------

/// The HTTP response status codes this library speaks of.
#[derive(Debug, PartialEq, Eq, Structural)]
pub enum HttpResponseCodes {
    Continue,
    SwitchingProtocol,
    Processing,
    EarlyHints,
    OK,
    Created,
    Accepted,
    NonAuthoritativeInformation,
    NoContent,
    ResetContent,
    PartialContent,
    MultiStatus,
    AlreadyReported,
    IMUsed,
    MultipleChoice,
    MovedPermanently,
    Found,
    SeeOther,
    NotModified,
    UseProxy,
    TemporaryRedirect,
    PermanentRedirect,
    BadRequest,
    Unauthorized,
    PaymentRequired,
    Forbidden,
    NotFound,
    MethodNotAllowed,
    NotAcceptable,
    ProxyAuthenticationRequired,
    RequestTimeout,
    Conflict,
    Gone,
    LengthRequired,
    PreconditionFailed,
    PayloadTooLarge,
    URITooLong,
    UnsupportedMediaType,
    RangeNotSatisfiable,
    ExpectationFailed,
    Imateapot,
    MisdirectedRequest,
    UnprocessedEntity,
    Locked,
    FailedDependancy,
    TooEarly,
    UpgradeRequired,
    PreconditionRequired,
    TooManyRequests,
    RequestHeaderFieldsTooLarge,
    UnavailableForLegalReasons,
    InternalServerError,
    NotImplemented,
    BadGateway,
    ServiceUnavailable,
    GatewayTimeout,
    HTTPVersionNotSupported,
    VariantAlsoNegotiates,
    InsufficientStorage,
    LoopDetected,
    NotExtended,
    NetworkAuthenticationRequired,
}

impl HttpResponseCodes {
    /// The numeric status code of this variant.
    pub open spec fn spec_code(self) -> u16 {
        match self {
            HttpResponseCodes::Continue => 100,
            HttpResponseCodes::SwitchingProtocol => 101,
            HttpResponseCodes::Processing => 102,
            HttpResponseCodes::EarlyHints => 103,
            HttpResponseCodes::OK => 200,
            HttpResponseCodes::Created => 201,
            HttpResponseCodes::Accepted => 202,
            HttpResponseCodes::NonAuthoritativeInformation => 203,
            HttpResponseCodes::NoContent => 204,
            HttpResponseCodes::ResetContent => 205,
            HttpResponseCodes::PartialContent => 206,
            HttpResponseCodes::MultiStatus => 207,
            HttpResponseCodes::AlreadyReported => 208,
            HttpResponseCodes::IMUsed => 226,
            HttpResponseCodes::MultipleChoice => 300,
            HttpResponseCodes::MovedPermanently => 301,
            HttpResponseCodes::Found => 302,
            HttpResponseCodes::SeeOther => 303,
            HttpResponseCodes::NotModified => 304,
            HttpResponseCodes::UseProxy => 305,
            HttpResponseCodes::TemporaryRedirect => 307,
            HttpResponseCodes::PermanentRedirect => 308,
            HttpResponseCodes::BadRequest => 400,
            HttpResponseCodes::Unauthorized => 401,
            HttpResponseCodes::PaymentRequired => 402,
            HttpResponseCodes::Forbidden => 403,
            HttpResponseCodes::NotFound => 404,
            HttpResponseCodes::MethodNotAllowed => 405,
            HttpResponseCodes::NotAcceptable => 406,
            HttpResponseCodes::ProxyAuthenticationRequired => 407,
            HttpResponseCodes::RequestTimeout => 408,
            HttpResponseCodes::Conflict => 409,
            HttpResponseCodes::Gone => 410,
            HttpResponseCodes::LengthRequired => 411,
            HttpResponseCodes::PreconditionFailed => 412,
            HttpResponseCodes::PayloadTooLarge => 413,
            HttpResponseCodes::URITooLong => 414,
            HttpResponseCodes::UnsupportedMediaType => 415,
            HttpResponseCodes::RangeNotSatisfiable => 416,
            HttpResponseCodes::ExpectationFailed => 417,
            HttpResponseCodes::Imateapot => 418,
            HttpResponseCodes::MisdirectedRequest => 421,
            HttpResponseCodes::UnprocessedEntity => 422,
            HttpResponseCodes::Locked => 423,
            HttpResponseCodes::FailedDependancy => 424,
            HttpResponseCodes::TooEarly => 425,
            HttpResponseCodes::UpgradeRequired => 426,
            HttpResponseCodes::PreconditionRequired => 427,
            HttpResponseCodes::TooManyRequests => 428,
            HttpResponseCodes::RequestHeaderFieldsTooLarge => 431,
            HttpResponseCodes::UnavailableForLegalReasons => 432,
            HttpResponseCodes::InternalServerError => 500,
            HttpResponseCodes::NotImplemented => 501,
            HttpResponseCodes::BadGateway => 502,
            HttpResponseCodes::ServiceUnavailable => 503,
            HttpResponseCodes::GatewayTimeout => 504,
            HttpResponseCodes::HTTPVersionNotSupported => 505,
            HttpResponseCodes::VariantAlsoNegotiates => 506,
            HttpResponseCodes::InsufficientStorage => 507,
            HttpResponseCodes::LoopDetected => 508,
            HttpResponseCodes::NotExtended => 510,
            HttpResponseCodes::NetworkAuthenticationRequired => 511,
        }
    }

    /// The numeric status code; see `spec_code`.
    pub fn code(&self) -> (r: u16)
        ensures
            r == self.spec_code(),
    {
        match self {
            HttpResponseCodes::Continue => 100,
            HttpResponseCodes::SwitchingProtocol => 101,
            HttpResponseCodes::Processing => 102,
            HttpResponseCodes::EarlyHints => 103,
            HttpResponseCodes::OK => 200,
            HttpResponseCodes::Created => 201,
            HttpResponseCodes::Accepted => 202,
            HttpResponseCodes::NonAuthoritativeInformation => 203,
            HttpResponseCodes::NoContent => 204,
            HttpResponseCodes::ResetContent => 205,
            HttpResponseCodes::PartialContent => 206,
            HttpResponseCodes::MultiStatus => 207,
            HttpResponseCodes::AlreadyReported => 208,
            HttpResponseCodes::IMUsed => 226,
            HttpResponseCodes::MultipleChoice => 300,
            HttpResponseCodes::MovedPermanently => 301,
            HttpResponseCodes::Found => 302,
            HttpResponseCodes::SeeOther => 303,
            HttpResponseCodes::NotModified => 304,
            HttpResponseCodes::UseProxy => 305,
            HttpResponseCodes::TemporaryRedirect => 307,
            HttpResponseCodes::PermanentRedirect => 308,
            HttpResponseCodes::BadRequest => 400,
            HttpResponseCodes::Unauthorized => 401,
            HttpResponseCodes::PaymentRequired => 402,
            HttpResponseCodes::Forbidden => 403,
            HttpResponseCodes::NotFound => 404,
            HttpResponseCodes::MethodNotAllowed => 405,
            HttpResponseCodes::NotAcceptable => 406,
            HttpResponseCodes::ProxyAuthenticationRequired => 407,
            HttpResponseCodes::RequestTimeout => 408,
            HttpResponseCodes::Conflict => 409,
            HttpResponseCodes::Gone => 410,
            HttpResponseCodes::LengthRequired => 411,
            HttpResponseCodes::PreconditionFailed => 412,
            HttpResponseCodes::PayloadTooLarge => 413,
            HttpResponseCodes::URITooLong => 414,
            HttpResponseCodes::UnsupportedMediaType => 415,
            HttpResponseCodes::RangeNotSatisfiable => 416,
            HttpResponseCodes::ExpectationFailed => 417,
            HttpResponseCodes::Imateapot => 418,
            HttpResponseCodes::MisdirectedRequest => 421,
            HttpResponseCodes::UnprocessedEntity => 422,
            HttpResponseCodes::Locked => 423,
            HttpResponseCodes::FailedDependancy => 424,
            HttpResponseCodes::TooEarly => 425,
            HttpResponseCodes::UpgradeRequired => 426,
            HttpResponseCodes::PreconditionRequired => 427,
            HttpResponseCodes::TooManyRequests => 428,
            HttpResponseCodes::RequestHeaderFieldsTooLarge => 431,
            HttpResponseCodes::UnavailableForLegalReasons => 432,
            HttpResponseCodes::InternalServerError => 500,
            HttpResponseCodes::NotImplemented => 501,
            HttpResponseCodes::BadGateway => 502,
            HttpResponseCodes::ServiceUnavailable => 503,
            HttpResponseCodes::GatewayTimeout => 504,
            HttpResponseCodes::HTTPVersionNotSupported => 505,
            HttpResponseCodes::VariantAlsoNegotiates => 506,
            HttpResponseCodes::InsufficientStorage => 507,
            HttpResponseCodes::LoopDetected => 508,
            HttpResponseCodes::NotExtended => 510,
            HttpResponseCodes::NetworkAuthenticationRequired => 511,
        }
    }
}

// ---------------------------------------------------------------------------
// Mime types
// ---------------------------------------------------------------------------

/// The mime type served for a file extension; text/html for anything
/// unknown.
pub open spec fn spec_lookup_mime(ext: Seq<char>) -> Seq<char> {
    if ext == "css"@ {
        "text/css"@
    } else if ext == "gif"@ {
        "image/gif"@
    } else if ext == "ico"@ {
        "image/x-icon"@
    } else if ext == "jpeg"@ {
        "image/jpeg"@
    } else if ext == "jpg"@ {
        "image/jpg"@
    } else if ext == "js"@ {
        "application/javascript"@
    } else if ext == "text"@ {
        "text/plain"@
    } else if ext == "txt"@ {
        "text/plain"@
    } else if ext == "png"@ {
        "image/png"@
    } else if ext == "pl"@ {
        "text/plain"@
    } else if ext == "ttf"@ {
        "application/x-font-truetype"@
    } else if ext == "otf"@ {
        "application/x-font-opentype"@
    } else if ext == "woff"@ {
        "application/font-woff"@
    } else if ext == "eot"@ {
        "application/vnd.ms-fontobject"@
    } else if ext == "svg"@ {
        "image/svg+xml"@
    } else if ext == "woff2"@ {
        "application/font-woff2"@
    } else if ext == "ics"@ {
        "text/calendar"@
    } else if ext == "mp4"@ {
        "application/mp4"@
    } else if ext == "vcf"@ {
        "text/vcard"@
    } else if ext == "pdf"@ {
        "application/pdf"@
    } else if ext == "csv"@ {
        "text/csv"@
    } else if ext == "html"@ {
        "text/html"@
    } else if ext == "raw"@ {
        "text/plain"@
    } else if ext == "json"@ {
        "application/json"@
    } else if ext == "xml"@ {
        "application/xml"@
    } else if ext == "xmls"@ {
        "application/xml"@
    } else if ext == "pem"@ {
        "application/x-x509-ca-cert"@
    } else if ext == "pptx"@ {
        "application/vnd.openxmlformats-officedocument.presentationml.presentation"@
    } else if ext == "ppt"@ {
        "application/vnd.ms-powerpoint"@
    } else if ext == "docx"@ {
        "application/vnd.openxmlformats-officedocument.wordprocessingml.document"@
    } else if ext == "doc"@ {
        "application/msword"@
    } else if ext == "xlsx"@ {
        "application/vnd.openxmlformats-officedocument.spreadsheetml.sheet"@
    } else if ext == "xls"@ {
        "application/vnd.ms-excel"@
    } else {
        "text/html"@
    }
}

/// Maps a file extension to its mime type; see `spec_lookup_mime`.
pub fn lookup_mime(extension: &str) -> (r: &'static str)
    ensures
        r@ == spec_lookup_mime(extension@),
{
    if str_eq(extension, "css") {
        "text/css"
    } else if str_eq(extension, "gif") {
        "image/gif"
    } else if str_eq(extension, "ico") {
        "image/x-icon"
    } else if str_eq(extension, "jpeg") {
        "image/jpeg"
    } else if str_eq(extension, "jpg") {
        "image/jpg"
    } else if str_eq(extension, "js") {
        "application/javascript"
    } else if str_eq(extension, "text") {
        "text/plain"
    } else if str_eq(extension, "txt") {
        "text/plain"
    } else if str_eq(extension, "png") {
        "image/png"
    } else if str_eq(extension, "pl") {
        "text/plain"
    } else if str_eq(extension, "ttf") {
        "application/x-font-truetype"
    } else if str_eq(extension, "otf") {
        "application/x-font-opentype"
    } else if str_eq(extension, "woff") {
        "application/font-woff"
    } else if str_eq(extension, "eot") {
        "application/vnd.ms-fontobject"
    } else if str_eq(extension, "svg") {
        "image/svg+xml"
    } else if str_eq(extension, "woff2") {
        "application/font-woff2"
    } else if str_eq(extension, "ics") {
        "text/calendar"
    } else if str_eq(extension, "mp4") {
        "application/mp4"
    } else if str_eq(extension, "vcf") {
        "text/vcard"
    } else if str_eq(extension, "pdf") {
        "application/pdf"
    } else if str_eq(extension, "csv") {
        "text/csv"
    } else if str_eq(extension, "html") {
        "text/html"
    } else if str_eq(extension, "raw") {
        "text/plain"
    } else if str_eq(extension, "json") {
        "application/json"
    } else if str_eq(extension, "xml") {
        "application/xml"
    } else if str_eq(extension, "xmls") {
        "application/xml"
    } else if str_eq(extension, "pem") {
        "application/x-x509-ca-cert"
    } else if str_eq(extension, "pptx") {
        "application/vnd.openxmlformats-officedocument.presentationml.presentation"
    } else if str_eq(extension, "ppt") {
        "application/vnd.ms-powerpoint"
    } else if str_eq(extension, "docx") {
        "application/vnd.openxmlformats-officedocument.wordprocessingml.document"
    } else if str_eq(extension, "doc") {
        "application/msword"
    } else if str_eq(extension, "xlsx") {
        "application/vnd.openxmlformats-officedocument.spreadsheetml.sheet"
    } else if str_eq(extension, "xls") {
        "application/vnd.ms-excel"
    } else {
        "text/html"
    }
}

// ---------------------------------------------------------------------------
// Request methods
// ---------------------------------------------------------------------------

/// The request methods this library speaks of, HTTP's and a few of the
/// application's own.
#[derive(Debug, PartialEq, Eq, Structural)]
pub enum HttpMethod {
    Undefined,
    Gateway,
    Get,
    Post,
    Put,
    Delete,
    User,
    Head,
    Sock,
}

/// The upper-case form of an ASCII letter; other characters unchanged.
pub open spec fn upper_char(c: char) -> char {
    if 97 <= (c as u32) && (c as u32) <= 122 {
        ((((c as u32) - 32) as u32) as char)
    } else {
        c
    }
}

/// A string with each ASCII letter upper-cased.
pub open spec fn upper_seq(s: Seq<char>) -> Seq<char> {
    s.map(|i: int, c: char| upper_char(c))
}

/// The upper-case form of an ASCII letter, executably.
fn upper_char_exec(c: char) -> (r: char)
    ensures
        r == upper_char(c),
{
    let u = c as u32;
    if 97 <= u && u <= 122 {
        ((u - 32) as u8) as char
    } else {
        c
    }
}

/// Whether `s`, upper-cased ASCII-wise, equals `t`.
fn eq_ignore_ascii_upper(s: &str, t: &str) -> (r: bool)
    ensures
        r == (upper_seq(s@) == t@),
{
    let n = s.unicode_len();
    if n != t.unicode_len() {
        proof {
            assert(upper_seq(s@).len() != t@.len());
        }
        return false;
    }
    for i in 0..n
        invariant
            n == s@.len(),
            n == t@.len(),
            forall|k: int| 0 <= k < i ==> upper_char(s@[k]) == #[trigger] t@[k],
    {
        let c = upper_char_exec(s.get_char(i));
        if c != t.get_char(i) {
            proof {
                assert(upper_seq(s@)[i as int] != t@[i as int]);
            }
            return false;
        }
    }
    proof {
        assert(upper_seq(s@) =~= t@);
    }
    true
}

/// The method a request-line name denotes, compared without regard to
/// ASCII case; anything unknown is Undefined.
pub open spec fn spec_method_from_str(s: Seq<char>) -> HttpMethod {
    if upper_seq(s) == "GET"@ {
        HttpMethod::Get
    } else if upper_seq(s) == "GATEWAY"@ {
        HttpMethod::Gateway
    } else if upper_seq(s) == "POST"@ {
        HttpMethod::Post
    } else if upper_seq(s) == "PUT"@ {
        HttpMethod::Put
    } else if upper_seq(s) == "HEAD"@ {
        HttpMethod::Head
    } else if upper_seq(s) == "DELETE"@ {
        HttpMethod::Delete
    } else if upper_seq(s) == "USER"@ {
        HttpMethod::User
    } else if upper_seq(s) == "SOCK"@ {
        HttpMethod::Sock
    } else {
        HttpMethod::Undefined
    }
}

/// This method's canonical upper-case name; empty for Undefined.
pub open spec fn spec_method_str(m: HttpMethod) -> Seq<char> {
    match m {
        HttpMethod::Gateway => "GATEWAY"@,
        HttpMethod::Get => "GET"@,
        HttpMethod::Post => "POST"@,
        HttpMethod::Put => "PUT"@,
        HttpMethod::Delete => "DELETE"@,
        HttpMethod::Head => "HEAD"@,
        HttpMethod::User => "USER"@,
        HttpMethod::Sock => "SOCK"@,
        HttpMethod::Undefined => ""@,
    }
}

impl HttpMethod {
    /// The canonical name of this method; see `spec_method_str`.
    pub fn as_str(&self) -> (r: &'static str)
        ensures
            r@ == spec_method_str(*self),
    {
        match self {
            HttpMethod::Gateway => "GATEWAY",
            HttpMethod::Get => "GET",
            HttpMethod::Post => "POST",
            HttpMethod::Put => "PUT",
            HttpMethod::Delete => "DELETE",
            HttpMethod::Head => "HEAD",
            HttpMethod::User => "USER",
            HttpMethod::Sock => "SOCK",
            HttpMethod::Undefined => "",
        }
    }

    /// Reads a method name, without regard to ASCII case; see
    /// `spec_method_from_str`.
    pub fn from_str(stringin: &str) -> (r: HttpMethod)
        ensures
            r == spec_method_from_str(stringin@),
    {
        if eq_ignore_ascii_upper(stringin, "GET") {
            HttpMethod::Get
        } else if eq_ignore_ascii_upper(stringin, "GATEWAY") {
            HttpMethod::Gateway
        } else if eq_ignore_ascii_upper(stringin, "POST") {
            HttpMethod::Post
        } else if eq_ignore_ascii_upper(stringin, "PUT") {
            HttpMethod::Put
        } else if eq_ignore_ascii_upper(stringin, "HEAD") {
            HttpMethod::Head
        } else if eq_ignore_ascii_upper(stringin, "DELETE") {
            HttpMethod::Delete
        } else if eq_ignore_ascii_upper(stringin, "USER") {
            HttpMethod::User
        } else if eq_ignore_ascii_upper(stringin, "SOCK") {
            HttpMethod::Sock
        } else {
            HttpMethod::Undefined
        }
    }

    /// The canonical name, owned.
    pub fn str_value(&self) -> (r: String)
        ensures
            r@ == spec_method_str(*self),
    {
        self.as_str().to_owned()
    }
}


// ---------------------------------------------------------------------------
// Content encodings
// ---------------------------------------------------------------------------

/// The content encodings the library can negotiate and apply.
#[derive(Debug, PartialEq, Eq, Structural)]
pub enum HttpEncoding {
    Brotli,
    Gzip,
    Deflate,
    Identity,
}

pub uninterp spec fn gzip_default_compression(bytes: Seq<u8>) -> Seq<u8>;

pub uninterp spec fn deflate_default_compression(bytes: Seq<u8>) -> Seq<u8>;

pub uninterp spec fn brotli_q11_w22_compression(bytes: Seq<u8>) -> Seq<u8>;

/// Relies on flate2's GzEncoder at the default level: the output is a
/// function of the input bytes alone, and writing into a vector does not
/// fail.
#[verifier::external_body]
fn gzip_compress(body: &[u8]) -> (r: Vec<u8>)
    ensures
        r@ == gzip_default_compression(body@),
{
    let mut encoder = flate2::write::GzEncoder::new(Vec::new(), flate2::Compression::default());
    encoder.write_all(body).unwrap();
    encoder.finish().unwrap()
}

/// Relies on flate2's DeflateEncoder at the default level; see
/// `gzip_compress`.
#[verifier::external_body]
fn deflate_compress(body: &[u8]) -> (r: Vec<u8>)
    ensures
        r@ == deflate_default_compression(body@),
{
    let mut encoder =
        flate2::write::DeflateEncoder::new(Vec::new(), flate2::Compression::default());
    encoder.write_all(body).unwrap();
    encoder.finish().unwrap()
}

/// Relies on brotli's CompressorWriter (4096-byte buffer, quality 11,
/// window 22): the output is a function of the input bytes alone, and
/// writing into a vector does not fail.
#[verifier::external_body]
fn brotli_compress(body: &[u8]) -> (r: Vec<u8>)
    ensures
        r@ == brotli_q11_w22_compression(body@),
{
    let mut output = Vec::new();
    {
        let mut writer = brotli::CompressorWriter::new(&mut output, 4096, 11, 22);
        writer.write_all(body).unwrap();
    }
    output
}

/// What `compress` returns for each encoding.
pub open spec fn spec_compress(e: HttpEncoding, bytes: Seq<u8>) -> Seq<u8> {
    match e {
        HttpEncoding::Gzip => gzip_default_compression(bytes),
        HttpEncoding::Deflate => deflate_default_compression(bytes),
        HttpEncoding::Brotli => brotli_q11_w22_compression(bytes),
        HttpEncoding::Identity => bytes,
    }
}

/// The token naming this encoding in an Accept-Encoding header.
pub open spec fn spec_encoding_str(e: HttpEncoding) -> Seq<char> {
    match e {
        HttpEncoding::Brotli => "br"@,
        HttpEncoding::Deflate => "deflate"@,
        HttpEncoding::Gzip => "gzip"@,
        HttpEncoding::Identity => "identity"@,
    }
}

/// The encoding a header token denotes; anything unknown is Identity.
pub open spec fn spec_encoding_of_token(s: Seq<char>) -> HttpEncoding {
    if s == "br"@ {
        HttpEncoding::Brotli
    } else if s == "gzip"@ {
        HttpEncoding::Gzip
    } else if s == "deflate"@ {
        HttpEncoding::Deflate
    } else {
        HttpEncoding::Identity
    }
}

/// Whether a header token names a supported encoding.
pub open spec fn spec_supported_token(s: Seq<char>) -> bool {
    s == "br"@ || s == "gzip"@ || s == "deflate"@ || s == "identity"@
}

impl HttpEncoding {
    /// The header token of this encoding; see `spec_encoding_str`.
    pub fn to_str(&self) -> (r: &'static str)
        ensures
            r@ == spec_encoding_str(*self),
    {
        match self {
            HttpEncoding::Brotli => "br",
            HttpEncoding::Deflate => "deflate",
            HttpEncoding::Gzip => "gzip",
            HttpEncoding::Identity => "identity",
        }
    }

    /// Compresses a body with this encoding; Identity copies it
    /// unchanged.  See `spec_compress`.
    pub fn compress(&self, body: &[u8]) -> (r: Vec<u8>)
        ensures
            r@ == spec_compress(*self, body@),
    {
        match self {
            HttpEncoding::Gzip => gzip_compress(body),
            HttpEncoding::Deflate => deflate_compress(body),
            HttpEncoding::Brotli => brotli_compress(body),
            HttpEncoding::Identity => vstd::slice::slice_to_vec(body),
        }
    }
}


// ---------------------------------------------------------------------------
// Content negotiation
// ---------------------------------------------------------------------------

/// The whitespace that header parsing trims.
pub open spec fn is_http_ws(c: char) -> bool {
    c == ' ' || c == '\t' || c == '\n' || c == '\r'
}

/// A string without its leading whitespace.
pub open spec fn trim_start_of(s: Seq<char>) -> Seq<char>
    decreases s.len(),
{
    if s.len() > 0 && is_http_ws(s[0]) {
        trim_start_of(s.subrange(1, s.len() as int))
    } else {
        s
    }
}

/// A string without its trailing whitespace.
pub open spec fn trim_end_of(s: Seq<char>) -> Seq<char>
    decreases s.len(),
{
    if s.len() > 0 && is_http_ws(s[s.len() - 1]) {
        trim_end_of(s.subrange(0, s.len() - 1))
    } else {
        s
    }
}

/// A string without leading or trailing whitespace.
pub open spec fn trim_of(s: Seq<char>) -> Seq<char> {
    trim_end_of(trim_start_of(s))
}

/// Index of the first occurrence of the character `c`, if any.
pub open spec fn find_char(s: Seq<char>, c: char) -> Option<int>
    decreases s.len(),
{
    if s.len() == 0 {
        None
    } else if s[0] == c {
        Some(0)
    } else {
        match find_char(s.subrange(1, s.len() as int), c) {
            Some(i) => Some(i + 1),
            None => None,
        }
    }
}

/// A found character lies inside the string, and nothing before it
/// matches.
pub proof fn lemma_find_char_props(s: Seq<char>, c: char)
    ensures
        match find_char(s, c) {
            Some(i) => 0 <= i < s.len() && s[i] == c && forall|j: int|
                0 <= j < i ==> s[j] != c,
            None => forall|j: int| 0 <= j < s.len() ==> s[j] != c,
        },
    decreases s.len(),
{
    if s.len() > 0 && s[0] != c {
        let s1 = s.subrange(1, s.len() as int);
        lemma_find_char_props(s1, c);
        assert forall|j: int| 1 <= j < s.len() implies s1[j - 1] == s[j] by {}
    }
}

/// The pieces of `s` between occurrences of the separator `c`, in order;
/// a string without the separator is one piece.
pub open spec fn split_on(s: Seq<char>, c: char) -> Seq<Seq<char>>
    decreases s.len(),
    via split_on_dec
{
    match find_char(s, c) {
        None => seq![s],
        Some(i) => seq![s.subrange(0, i)] + split_on(s.subrange(i + 1, s.len() as int), c),
    }
}

#[via_fn]
proof fn split_on_dec(s: Seq<char>, c: char) {
    lemma_find_char_props(s, c);
}

/// An ASCII decimal digit.
pub open spec fn is_digit(c: char) -> bool {
    48 <= (c as u32) && (c as u32) <= 57
}

/// The numeric value of an ASCII digit.
pub open spec fn digit_val(c: char) -> int {
    (c as u32) - 48
}

/// Whether every character is an ASCII digit.
pub open spec fn all_digits(s: Seq<char>) -> bool {
    forall|i: int| 0 <= i < s.len() ==> is_digit(#[trigger] s[i])
}

/// The value of a digit string, read left to right, held at the first
/// value of at least ten thousand once reached (quality values this
/// large all behave alike).
pub open spec fn digits_value(s: Seq<char>) -> int
    decreases s.len(),
{
    if s.len() == 0 {
        0
    } else {
        let prev = digits_value(s.subrange(0, s.len() - 1));
        if prev >= 10000 {
            prev
        } else {
            prev * 10 + digit_val(s[s.len() - 1])
        }
    }
}

/// A digit value never leaves its saturated range.
pub proof fn lemma_digits_value_bounds(s: Seq<char>)
    requires
        all_digits(s),
    ensures
        0 <= digits_value(s) <= 100009,
    decreases s.len(),
{
    if s.len() > 0 {
        lemma_digits_value_bounds(s.subrange(0, s.len() - 1));
    }
}

/// The first three fractional digits, read as thousandths.
pub open spec fn frac_millis(f: Seq<char>) -> int {
    if f.len() == 0 {
        0
    } else if f.len() == 1 {
        digit_val(f[0]) * 100
    } else if f.len() == 2 {
        digit_val(f[0]) * 100 + digit_val(f[1]) * 10
    } else {
        digit_val(f[0]) * 100 + digit_val(f[1]) * 10 + digit_val(f[2])
    }
}

/// The quality ceiling, in thousandths: qualities at or above it (and
/// infinite ones) all compare equal, which only tells absurd headers
/// apart from each other.
pub const Q_SAT: i64 = 2_000_000_000;

/// The digit-and-dot part of a quality value, read as non-negative
/// integer thousandths: an optional integer part and an optional
/// fraction around one dot, at least one digit in all, fractional digits
/// beyond the third truncated.  Anything else does not parse.
pub open spec fn parse_mantissa_millis(s: Seq<char>) -> Option<int> {
    match find_char(s, '.') {
        None => if s.len() > 0 && all_digits(s) {
            Some(digits_value(s) * 1000)
        } else {
            None
        },
        Some(i) => {
            let ip = s.subrange(0, i);
            let fp = s.subrange(i + 1, s.len() as int);
            if ip.len() + fp.len() > 0 && all_digits(ip) && all_digits(fp) {
                Some(digits_value(ip) * 1000 + frac_millis(fp))
            } else {
                None
            }
        },
    }
}

/// Index of the first exponent marker, `e` or `E`, if any.
pub open spec fn find_exp(s: Seq<char>) -> Option<int>
    decreases s.len(),
{
    if s.len() == 0 {
        None
    } else if s[0] == 'e' || s[0] == 'E' {
        Some(0)
    } else {
        match find_exp(s.subrange(1, s.len() as int)) {
            Some(i) => Some(i + 1),
            None => None,
        }
    }
}

/// A found exponent marker lies inside the string, and nothing before it
/// is one.
pub proof fn lemma_find_exp_props(s: Seq<char>)
    ensures
        match find_exp(s) {
            Some(i) => 0 <= i < s.len() && (s[i] == 'e' || s[i] == 'E') && forall|j: int|
                0 <= j < i ==> s[j] != 'e' && s[j] != 'E',
            None => forall|j: int| 0 <= j < s.len() ==> s[j] != 'e' && s[j] != 'E',
        },
    decreases s.len(),
{
    if s.len() > 0 && s[0] != 'e' && s[0] != 'E' {
        let s1 = s.subrange(1, s.len() as int);
        lemma_find_exp_props(s1);
        assert forall|j: int| 1 <= j < s.len() implies s1[j - 1] == s[j] by {}
    }
}

/// An exponent: an optional sign before at least one digit.
pub open spec fn parse_exp(s: Seq<char>) -> Option<int> {
    if s.len() > 0 && (s[0] == '+' || s[0] == '-') {
        let d = s.subrange(1, s.len() as int);
        if d.len() > 0 && all_digits(d) {
            Some(
                if s[0] == '-' {
                    -digits_value(d)
                } else {
                    digits_value(d)
                },
            )
        } else {
            None
        }
    } else if s.len() > 0 && all_digits(s) {
        Some(digits_value(s))
    } else {
        None
    }
}

/// Ten-fold scaling up, `k` times, held at the quality ceiling.
pub open spec fn scale_up(m: int, k: int) -> int
    decreases k,
{
    if k <= 0 {
        m
    } else {
        let m2 = scale_up(m, k - 1);
        if m2 * 10 >= Q_SAT {
            Q_SAT as int
        } else {
            m2 * 10
        }
    }
}

/// Ten-fold scaling down, `k` times, truncating.
pub open spec fn scale_down(m: int, k: int) -> int
    decreases k,
{
    if k <= 0 {
        m
    } else {
        scale_down(m, k - 1) / 10
    }
}

/// Applies a decimal exponent to a thousandths value.  Twelve steps
/// either way already pin any mantissa at the ceiling or at zero, so
/// larger exponents are cut there.
pub open spec fn shift_millis(m: int, e: int) -> int {
    if e >= 0 {
        scale_up(
            m,
            if e > 12 {
                12
            } else {
                e
            },
        )
    } else {
        scale_down(
            m,
            if e < -12 {
                12
            } else {
                -e
            },
        )
    }
}

/// Scaling up keeps a value within the quality range.
pub proof fn lemma_scale_up_bounds(m: int, k: int)
    requires
        0 <= m <= Q_SAT,
    ensures
        0 <= scale_up(m, k) <= Q_SAT,
    decreases k,
{
    if k > 0 {
        lemma_scale_up_bounds(m, k - 1);
    }
}

/// Scaling down keeps a non-negative value non-negative and no larger.
pub proof fn lemma_scale_down_bounds(m: int, k: int)
    requires
        0 <= m,
    ensures
        0 <= scale_down(m, k) <= m,
    decreases k,
{
    if k > 0 {
        lemma_scale_down_bounds(m, k - 1);
    }
}

/// A quality value read as signed integer thousandths, mirroring what
/// `f32` parsing accepts: an optional sign, then either `nan` (which
/// never exceeds zero, so it is read as zero), `inf`/`infinity` (read as
/// the ceiling), or digits with an optional dot and an optional decimal
/// exponent.  Anything else does not parse.
pub open spec fn parse_q_millis(s: Seq<char>) -> Option<int> {
    if s.len() > 0 && (s[0] == '+' || s[0] == '-') {
        match parse_q_magnitude(s.subrange(1, s.len() as int)) {
            Some(v) => Some(
                if s[0] == '-' {
                    -v
                } else {
                    v
                },
            ),
            None => None,
        }
    } else {
        parse_q_magnitude(s)
    }
}

/// The unsigned part of a quality value; see `parse_q_millis`.
pub open spec fn parse_q_magnitude(s: Seq<char>) -> Option<int> {
    if lower_seq(s) == "nan"@ {
        Some(0)
    } else if lower_seq(s) == "inf"@ || lower_seq(s) == "infinity"@ {
        Some(Q_SAT as int)
    } else {
        match find_exp(s) {
            None => parse_mantissa_millis(s),
            Some(i) => {
                let m = parse_mantissa_millis(s.subrange(0, i));
                let e = parse_exp(s.subrange(i + 1, s.len() as int));
                if m is Some && e is Some {
                    Some(shift_millis(m->Some_0, e->Some_0))
                } else {
                    None
                }
            },
        }
    }
}

/// The lower-case form of an ASCII letter; other characters unchanged.
pub open spec fn lower_char(c: char) -> char {
    if 65 <= (c as u32) && (c as u32) <= 90 {
        ((((c as u32) + 32) as u32) as char)
    } else {
        c
    }
}

/// A string with each ASCII letter lower-cased.
pub open spec fn lower_seq(s: Seq<char>) -> Seq<char> {
    s.map(|i: int, c: char| lower_char(c))
}

/// The encoding token of one comma-separated header entry: the part
/// before any semicolon, trimmed and lower-cased.
pub open spec fn entry_token(e: Seq<char>) -> Seq<char> {
    lower_seq(trim_of(split_on(trim_of(e), ';')[0]))
}

/// The quality of a parameter list: the first parameter of the form
/// `q=...` whose value parses; one thousand (that is, 1.0) when none
/// does.
pub open spec fn q_of_pieces(ps: Seq<Seq<char>>) -> int
    decreases ps.len(),
{
    if ps.len() == 0 {
        1000
    } else {
        let t = trim_of(ps[0]);
        if t.len() >= 2 && t[0] == 'q' && t[1] == '=' {
            match parse_q_millis(t.subrange(2, t.len() as int)) {
                Some(v) => v,
                None => q_of_pieces(ps.subrange(1, ps.len() as int)),
            }
        } else {
            q_of_pieces(ps.subrange(1, ps.len() as int))
        }
    }
}

/// The quality of one comma-separated header entry.
pub open spec fn entry_q(e: Seq<char>) -> int {
    let ps = split_on(trim_of(e), ';');
    q_of_pieces(ps.subrange(1, ps.len() as int))
}

/// The winning entry of an Accept-Encoding list: among entries whose
/// token is supported and whose quality is positive, the one with the
/// highest quality, the earliest on ties.
pub open spec fn best_entry(es: Seq<Seq<char>>) -> Option<(Seq<char>, int)>
    decreases es.len(),
{
    if es.len() == 0 {
        None
    } else {
        let tok = entry_token(es[0]);
        let q = entry_q(es[0]);
        let rest = best_entry(es.subrange(1, es.len() as int));
        if spec_supported_token(tok) && q > 0 {
            match rest {
                Some(p) => if p.1 > q {
                    Some(p)
                } else {
                    Some((tok, q))
                },
                None => Some((tok, q)),
            }
        } else {
            rest
        }
    }
}

/// What `determine_encoding` returns: the winning entry's encoding, or
/// Identity when the header is missing or nothing acceptable is in it.
pub open spec fn spec_determine_encoding(h: Option<Seq<char>>) -> HttpEncoding {
    match h {
        None => HttpEncoding::Identity,
        Some(v) => match best_entry(split_on(v, ',')) {
            Some(p) => spec_encoding_of_token(p.0),
            None => HttpEncoding::Identity,
        },
    }
}


/// Whether the character is trimmed whitespace, executably.
fn is_ws_exec(c: char) -> (r: bool)
    ensures
        r == is_http_ws(c),
{
    c == ' ' || c == '\t' || c == '\n' || c == '\r'
}

/// Trims leading whitespace, mirroring `trim_start_of`.
fn trim_start_exec<'a>(s: &'a str) -> (r: &'a str)
    ensures
        r@ == trim_start_of(s@),
    decreases s@.len(),
{
    if !s.is_empty() && is_ws_exec(s.get_char(0)) {
        trim_start_exec(s.substring_char(1, s.unicode_len()))
    } else {
        s
    }
}

/// Trims trailing whitespace, mirroring `trim_end_of`.
fn trim_end_exec<'a>(s: &'a str) -> (r: &'a str)
    ensures
        r@ == trim_end_of(s@),
    decreases s@.len(),
{
    let n = s.unicode_len();
    if n > 0 && is_ws_exec(s.get_char(n - 1)) {
        trim_end_exec(s.substring_char(0, n - 1))
    } else {
        s
    }
}

/// Trims both ends, mirroring `trim_of`.
fn trim_exec<'a>(s: &'a str) -> (r: &'a str)
    ensures
        r@ == trim_of(s@),
{
    trim_end_exec(trim_start_exec(s))
}

/// First occurrence of a character, mirroring `find_char`.
fn find_char_exec(s: &str, c: char) -> (r: Option<usize>)
    ensures
        match r {
            Some(i) => find_char(s@, c) == Some(i as int),
            None => find_char(s@, c) is None,
        },
    decreases s@.len(),
{
    if s.is_empty() {
        None
    } else if s.get_char(0) == c {
        Some(0)
    } else {
        let rest = s.substring_char(1, s.unicode_len());
        match find_char_exec(rest, c) {
            Some(i) => {
                proof {
                    lemma_find_char_props(rest@, c);
                }
                Some(i + 1)
            },
            None => None,
        }
    }
}

/// Whether `s`, lower-cased ASCII-wise, equals `t`.
fn eq_ignore_ascii_lower(s: &str, t: &str) -> (r: bool)
    ensures
        r == (lower_seq(s@) == t@),
{
    let n = s.unicode_len();
    if n != t.unicode_len() {
        proof {
            assert(lower_seq(s@).len() != t@.len());
        }
        return false;
    }
    for i in 0..n
        invariant
            n == s@.len(),
            n == t@.len(),
            forall|k: int| 0 <= k < i ==> lower_char(s@[k]) == #[trigger] t@[k],
    {
        let c = s.get_char(i);
        let u = c as u32;
        let lowered: char = if 65 <= u && u <= 90 {
            ((u + 32) as u8) as char
        } else {
            c
        };
        proof {
            assert(lowered == lower_char(s@[i as int]));
        }
        if lowered != t.get_char(i) {
            proof {
                assert(lower_seq(s@)[i as int] != t@[i as int]);
            }
            return false;
        }
    }
    proof {
        assert(lower_seq(s@) =~= t@);
    }
    true
}

/// The saturating value of a digit string, mirroring `digits_value`.
fn digits_value_exec(s: &str) -> (r: u32)
    requires
        all_digits(s@),
    ensures
        r as int == digits_value(s@),
{
    let n = s.unicode_len();
    let mut acc: u32 = 0;
    proof {
        assert(s@.subrange(0, 0) =~= Seq::<char>::empty());
    }
    for i in 0..n
        invariant
            n == s@.len(),
            all_digits(s@),
            acc as int == digits_value(s@.subrange(0, i as int)),
            acc <= 100009,
        decreases n - i,
    {
        let c = s.get_char(i);
        let ghost pre = s@.subrange(0, i as int);
        proof {
            assert(is_digit(s@[i as int]));
            assert(s@.subrange(0, i + 1).subrange(0, i as int) =~= pre);
            assert(s@.subrange(0, i + 1)[i as int] == s@[i as int]);
            lemma_digits_value_bounds(pre);
        }
        if acc < 10000 {
            acc = acc * 10 + ((c as u32) - 48);
        }
    }
    proof {
        assert(s@.subrange(0, n as int) =~= s@);
    }
    acc
}

/// The first three fractional digits as thousandths, mirroring
/// `frac_millis`.
fn frac_millis_exec(s: &str) -> (r: u32)
    requires
        all_digits(s@),
    ensures
        r as int == frac_millis(s@),
{
    let n = s.unicode_len();
    if n == 0 {
        0
    } else if n == 1 {
        proof {
            assert(is_digit(s@[0]));
        }
        ((s.get_char(0) as u32) - 48) * 100
    } else if n == 2 {
        proof {
            assert(is_digit(s@[0]));
            assert(is_digit(s@[1]));
        }
        ((s.get_char(0) as u32) - 48) * 100 + ((s.get_char(1) as u32) - 48) * 10
    } else {
        proof {
            assert(is_digit(s@[0]));
            assert(is_digit(s@[1]));
            assert(is_digit(s@[2]));
        }
        ((s.get_char(0) as u32) - 48) * 100 + ((s.get_char(1) as u32) - 48) * 10 + ((s.get_char(
            2,
        ) as u32) - 48)
    }
}

/// Whether every character is a digit, executably.
fn all_digits_exec(s: &str) -> (r: bool)
    ensures
        r == all_digits(s@),
{
    let n = s.unicode_len();
    for i in 0..n
        invariant
            n == s@.len(),
            forall|k: int| 0 <= k < i ==> is_digit(#[trigger] s@[k]),
    {
        let u = s.get_char(i) as u32;
        if !(48 <= u && u <= 57) {
            proof {
                assert(!is_digit(s@[i as int]));
            }
            return false;
        }
    }
    true
}

/// Reads the digit-and-dot part of a quality value, mirroring
/// `parse_mantissa_millis`.
fn parse_mantissa_exec(s: &str) -> (r: Option<i64>)
    ensures
        match r {
            Some(v) => parse_mantissa_millis(s@) == Some(v as int) && 0 <= v <= Q_SAT,
            None => parse_mantissa_millis(s@) is None,
        },
{
    let n = s.unicode_len();
    match find_char_exec(s, '.') {
        None => {
            if n > 0 && all_digits_exec(s) {
                proof {
                    lemma_digits_value_bounds(s@);
                }
                Some((digits_value_exec(s) as i64) * 1000)
            } else {
                None
            }
        },
        Some(i) => {
            proof {
                lemma_find_char_props(s@, '.');
            }
            let ip = s.substring_char(0, i);
            let fp = s.substring_char(i + 1, n);
            if (ip.unicode_len() + fp.unicode_len() > 0) && all_digits_exec(ip)
                && all_digits_exec(fp) {
                proof {
                    lemma_digits_value_bounds(ip@);
                }
                Some((digits_value_exec(ip) as i64) * 1000 + (frac_millis_exec(fp) as i64))
            } else {
                None
            }
        },
    }
}

/// First exponent marker, mirroring `find_exp`.
fn find_exp_exec(s: &str) -> (r: Option<usize>)
    ensures
        match r {
            Some(i) => find_exp(s@) == Some(i as int),
            None => find_exp(s@) is None,
        },
    decreases s@.len(),
{
    if s.is_empty() {
        None
    } else {
        let c = s.get_char(0);
        if c == 'e' || c == 'E' {
            Some(0)
        } else {
            let rest = s.substring_char(1, s.unicode_len());
            match find_exp_exec(rest) {
                Some(i) => {
                    proof {
                        lemma_find_exp_props(rest@);
                    }
                    Some(i + 1)
                },
                None => None,
            }
        }
    }
}

/// Reads an exponent, mirroring `parse_exp`.
fn parse_exp_exec(s: &str) -> (r: Option<i64>)
    ensures
        match r {
            Some(v) => parse_exp(s@) == Some(v as int),
            None => parse_exp(s@) is None,
        },
{
    let n = s.unicode_len();
    if n > 0 {
        let c = s.get_char(0);
        if c == '+' || c == '-' {
            let d = s.substring_char(1, n);
            if d.unicode_len() > 0 && all_digits_exec(d) {
                proof {
                    lemma_digits_value_bounds(d@);
                }
                let mag = digits_value_exec(d) as i64;
                if c == '-' {
                    return Some(-mag);
                }
                return Some(mag);
            }
            return None;
        }
        if all_digits_exec(s) {
            proof {
                lemma_digits_value_bounds(s@);
            }
            return Some(digits_value_exec(s) as i64);
        }
    }
    None
}

/// Applies a decimal exponent, mirroring `shift_millis`.
fn shift_exec(m: i64, e: i64) -> (r: i64)
    requires
        0 <= m <= Q_SAT,
    ensures
        r as int == shift_millis(m as int, e as int),
        0 <= r <= Q_SAT,
{
    if e >= 0 {
        let k: i64 = if e > 12 {
            12
        } else {
            e
        };
        let mut acc: i64 = m;
        let mut j: i64 = 0;
        while j < k
            invariant
                0 <= m <= Q_SAT,
                0 <= j <= k <= 12,
                acc as int == scale_up(m as int, j as int),
                0 <= acc <= Q_SAT,
            decreases k - j,
        {
            proof {
                lemma_scale_up_bounds(m as int, j + 1);
            }
            if acc * 10 >= Q_SAT {
                acc = Q_SAT;
            } else {
                acc = acc * 10;
            }
            j = j + 1;
        }
        proof {
            lemma_scale_up_bounds(m as int, k as int);
        }
        acc
    } else {
        let k: i64 = if e < -12 {
            12
        } else {
            -e
        };
        let mut acc: i64 = m;
        let mut j: i64 = 0;
        while j < k
            invariant
                0 <= m <= Q_SAT,
                0 <= j <= k <= 12,
                acc as int == scale_down(m as int, j as int),
                0 <= acc <= Q_SAT,
            decreases k - j,
        {
            proof {
                lemma_scale_down_bounds(m as int, j + 1);
            }
            acc = acc / 10;
            j = j + 1;
        }
        acc
    }
}

/// Reads a signed quality value as thousandths, mirroring
/// `parse_q_millis`.
fn parse_q_exec(s: &str) -> (r: Option<i64>)
    ensures
        match r {
            Some(v) => parse_q_millis(s@) == Some(v as int),
            None => parse_q_millis(s@) is None,
        },
{
    let n = s.unicode_len();
    if n > 0 {
        let c = s.get_char(0);
        if c == '+' || c == '-' {
            let body = s.substring_char(1, n);
            return match parse_q_magnitude_exec(body) {
                Some(v) => if c == '-' {
                    Some(-v)
                } else {
                    Some(v)
                },
                None => None,
            };
        }
    }
    parse_q_magnitude_exec(s)
}

/// Reads the unsigned part of a quality value, mirroring
/// `parse_q_magnitude`.
fn parse_q_magnitude_exec(s: &str) -> (r: Option<i64>)
    ensures
        match r {
            Some(v) => parse_q_magnitude(s@) == Some(v as int) && 0 <= v <= Q_SAT,
            None => parse_q_magnitude(s@) is None,
        },
{
    if eq_ignore_ascii_lower(s, "nan") {
        return Some(0);
    }
    if eq_ignore_ascii_lower(s, "inf") || eq_ignore_ascii_lower(s, "infinity") {
        return Some(Q_SAT);
    }
    let n = s.unicode_len();
    match find_exp_exec(s) {
        None => parse_mantissa_exec(s),
        Some(i) => {
            proof {
                lemma_find_exp_props(s@);
            }
            let m = parse_mantissa_exec(s.substring_char(0, i));
            let e = parse_exp_exec(s.substring_char(i + 1, n));
            match (m, e) {
                (Some(mv), Some(ev)) => Some(shift_exec(mv, ev)),
                _ => None,
            }
        },
    }
}

/// The quality of a parameter list, mirroring `q_of_pieces` over the
/// semicolon-separated pieces of `s`.
fn q_params(s: &str) -> (r: i64)
    ensures
        r as int == q_of_pieces(split_on(s@, ';')),
    decreases s@.len(),
{
    let n = s.unicode_len();
    let ghost ps = split_on(s@, ';');
    let (piece, rest): (&str, Option<&str>) = match find_char_exec(s, ';') {
        Some(i) => {
            proof {
                lemma_find_char_props(s@, ';');
            }
            (s.substring_char(0, i), Some(s.substring_char(i + 1, n)))
        },
        None => (s, None),
    };
    proof {
        match rest {
            Some(rr) => {
                assert(ps == seq![piece@] + split_on(rr@, ';'));
                assert(ps[0] == piece@);
                assert(ps.subrange(1, ps.len() as int) =~= split_on(rr@, ';'));
            },
            None => {
                assert(ps == seq![piece@]);
                assert(ps[0] == piece@);
                assert(ps.subrange(1, ps.len() as int) =~= Seq::<Seq<char>>::empty());
            },
        }
    }
    let t = trim_exec(piece);
    let tn = t.unicode_len();
    if tn >= 2 && t.get_char(0) == 'q' && t.get_char(1) == '=' {
        match parse_q_exec(t.substring_char(2, tn)) {
            Some(v) => {
                return v;
            },
            None => {},
        }
    }
    match rest {
        Some(rr) => {
            let res = q_params(rr);
            proof {
                assert(q_of_pieces(ps) == q_of_pieces(ps.subrange(1, ps.len() as int)));
            }
            res
        },
        None => {
            proof {
                assert(q_of_pieces(Seq::<Seq<char>>::empty()) == 1000);
                assert(q_of_pieces(ps) == q_of_pieces(ps.subrange(1, ps.len() as int)));
            }
            1000
        },
    }
}


/// Evaluates one comma-separated entry: its encoding, its quality in
/// thousandths, and whether its token is supported.
fn eval_entry(e: &str) -> (r: (HttpEncoding, i64, bool))
    ensures
        r.0 == spec_encoding_of_token(entry_token(e@)),
        r.1 as int == entry_q(e@),
        r.2 == spec_supported_token(entry_token(e@)),
{
    let t = trim_exec(e);
    let tn = t.unicode_len();
    let ghost ps = split_on(t@, ';');
    let (piece, q): (&str, i64) = match find_char_exec(t, ';') {
        Some(i) => {
            proof {
                lemma_find_char_props(t@, ';');
                assert(ps[0] == t@.subrange(0, i as int));
                assert(ps.subrange(1, ps.len() as int) =~= split_on(
                    t@.subrange(i + 1, t@.len() as int),
                    ';',
                ));
            }
            (t.substring_char(0, i), q_params(t.substring_char(i + 1, tn)))
        },
        None => {
            proof {
                assert(ps == seq![t@]);
                assert(ps[0] == t@);
                assert(ps.subrange(1, ps.len() as int) =~= Seq::<Seq<char>>::empty());
                assert(q_of_pieces(Seq::<Seq<char>>::empty()) == 1000);
            }
            (t, 1000)
        },
    };
    let tok = trim_exec(piece);
    let supported = eq_ignore_ascii_lower(tok, "br") || eq_ignore_ascii_lower(tok, "gzip")
        || eq_ignore_ascii_lower(tok, "deflate") || eq_ignore_ascii_lower(tok, "identity");
    let enc: HttpEncoding = if eq_ignore_ascii_lower(tok, "br") {
        HttpEncoding::Brotli
    } else if eq_ignore_ascii_lower(tok, "gzip") {
        HttpEncoding::Gzip
    } else if eq_ignore_ascii_lower(tok, "deflate") {
        HttpEncoding::Deflate
    } else {
        HttpEncoding::Identity
    };
    proof {
        assert(entry_token(e@) == lower_seq(tok@));
    }
    (enc, q, supported)
}

/// The winning entry of a comma-separated header value, mirroring
/// `best_entry` over its entries.
fn best_header(s: &str) -> (r: Option<(HttpEncoding, i64)>)
    ensures
        match r {
            Some(p) => best_entry(split_on(s@, ',')) matches Some(b) && p.0
                == spec_encoding_of_token(b.0) && p.1 as int == b.1,
            None => best_entry(split_on(s@, ',')) is None,
        },
    decreases s@.len(),
{
    let n = s.unicode_len();
    let ghost es = split_on(s@, ',');
    let (entry, rest): (&str, Option<&str>) = match find_char_exec(s, ',') {
        Some(i) => {
            proof {
                lemma_find_char_props(s@, ',');
            }
            (s.substring_char(0, i), Some(s.substring_char(i + 1, n)))
        },
        None => (s, None),
    };
    proof {
        match rest {
            Some(rr) => {
                assert(es == seq![entry@] + split_on(rr@, ','));
                assert(es[0] == entry@);
                assert(es.subrange(1, es.len() as int) =~= split_on(rr@, ','));
            },
            None => {
                assert(es == seq![entry@]);
                assert(es[0] == entry@);
                assert(es.subrange(1, es.len() as int) =~= Seq::<Seq<char>>::empty());
                assert(best_entry(Seq::<Seq<char>>::empty()) is None);
            },
        }
    }
    let (enc, q, supported) = eval_entry(entry);
    let rec: Option<(HttpEncoding, i64)> = match rest {
        Some(rr) => best_header(rr),
        None => None,
    };
    if supported && q > 0 {
        match rec {
            Some(p) => if p.1 > q {
                Some(p)
            } else {
                Some((enc, q))
            },
            None => Some((enc, q)),
        }
    } else {
        rec
    }
}

/// Picks the content encoding an Accept-Encoding header asks for: the
/// supported entry with the highest positive quality, the earliest on
/// ties; Identity when the header is missing or names nothing
/// acceptable.  Qualities are compared as signed integer thousandths
/// (see `parse_q_millis`), so distinctions finer than a thousandth, or
/// between absurd values beyond the ceiling, are not drawn.  See
/// `spec_determine_encoding`.
pub fn determine_encoding(header: Option<String>) -> (r: HttpEncoding)
    ensures
        r == spec_determine_encoding(
            match header {
                Some(v) => Some(v@),
                None => None,
            },
        ),
{
    match header {
        Some(value) => {
            match best_header(value.as_str()) {
                Some(p) => p.0,
                None => HttpEncoding::Identity,
            }
        },
        None => HttpEncoding::Identity,
    }
}


// ---------------------------------------------------------------------------
// Language preferences
// ---------------------------------------------------------------------------

/// A lower-case ASCII letter.
pub open spec fn is_lang_lower(c: char) -> bool {
    97 <= (c as u32) && (c as u32) <= 122
}

/// A character that may not follow a language tag's two letters.
pub open spec fn is_lang_excluded(c: char) -> bool {
    is_digit(c) || c == ',' || c == '.' || c == ';' || c == '-' || c == '=' || c == ' '
}

/// The language tokens found in a header, scanning left to right: two
/// lower-case letters, greedily extended by one following character
/// unless it is excluded; the scan resumes after each token.
pub open spec fn lang_tokens(s: Seq<char>) -> Seq<Seq<char>>
    decreases s.len(),
{
    if s.len() < 2 {
        Seq::empty()
    } else if is_lang_lower(s[0]) && is_lang_lower(s[1]) {
        if s.len() >= 3 && !is_lang_excluded(s[2]) {
            seq![s.subrange(0, 3)] + lang_tokens(s.subrange(3, s.len() as int))
        } else {
            seq![s.subrange(0, 2)] + lang_tokens(s.subrange(2, s.len() as int))
        }
    } else {
        lang_tokens(s.subrange(1, s.len() as int))
    }
}

pub uninterp spec fn unicode_lower_str(s: Seq<char>) -> Seq<char>;

/// What `get_language` returns: the first language token, lower-cased
/// the way str::to_lowercase does, or "en" when none is found.
pub open spec fn spec_get_language(s: Seq<char>) -> Seq<char> {
    let ts = lang_tokens(s);
    if ts.len() > 0 {
        unicode_lower_str(ts[0])
    } else {
        "en"@
    }
}

/// Relies on str::to_lowercase: the full Unicode lower-casing of a
/// string, a function of its characters alone; on an ASCII string it is
/// exactly the ASCII lower-casing.
#[verifier::external_body]
fn to_lowercase_str(s: &str) -> (r: String)
    ensures
        r@ == unicode_lower_str(s@),
        vstd::string::is_ascii(s) ==> r@ == lower_seq(s@),
{
    s.to_lowercase()
}

/// The language a header's codes ask for first: the earliest two-letter
/// tag, lower-cased; English when none occurs.  See `spec_get_language`.
pub fn get_language(codesin: String) -> (r: String)
    ensures
        r@ == spec_get_language(codesin@),
{
    let s = codesin.as_str();
    let n = s.unicode_len();
    let ghost full = s@;
    let mut i: usize = 0;
    proof {
        assert(full.subrange(0, n as int) =~= full);
    }
    while n - i > 1
        invariant
            n == full.len(),
            s@ == full,
            codesin@ == full,
            0 <= i <= n,
            lang_tokens(full) == lang_tokens(full.subrange(i as int, n as int)),
        decreases n - i,
    {
        let ghost suf = full.subrange(i as int, n as int);
        let c0 = s.get_char(i);
        let c1 = s.get_char(i + 1);
        let l0 = c0 as u32;
        let l1 = c1 as u32;
        if 97 <= l0 && l0 <= 122 && 97 <= l1 && l1 <= 122 {
            let take_three = if n - i > 2 {
                let c2 = s.get_char(i + 2);
                let u2 = c2 as u32;
                !(48 <= u2 && u2 <= 57) && c2 != ',' && c2 != '.' && c2 != ';' && c2 != '-'
                    && c2 != '=' && c2 != ' '
            } else {
                false
            };
            let j = if take_three {
                i + 3
            } else {
                i + 2
            };
            proof {
                assert(suf[0] == full[i as int] && suf[1] == full[i + 1]);
                if take_three {
                    assert(suf[2] == full[i + 2]);
                    assert(suf.subrange(0, 3) =~= full.subrange(i as int, j as int));
                } else {
                    if suf.len() >= 3 {
                        assert(suf[2] == full[i + 2]);
                    }
                    assert(suf.subrange(0, 2) =~= full.subrange(i as int, j as int));
                }
                assert(lang_tokens(full)[0] == full.subrange(i as int, j as int));
            }
            let token = s.substring_char(i, j);
            let lowered = to_lowercase_str(token);
            return lowered;
        }
        proof {
            assert(suf.subrange(1, suf.len() as int) =~= full.subrange(i + 1, n as int));
        }
        i = i + 1;
    }
    proof {
        assert(lang_tokens(full.subrange(i as int, n as int)).len() == 0);
    }
    "en".to_owned()
}

} // verus!
