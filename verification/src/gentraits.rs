//! Small conversion traits that users of the library implement for their
//! own types.
use vstd::prelude::*;

verus! {

/// A value with a byte representation.
pub trait ByteTransform {
    /// The value's bytes.
    fn to_bytes(&self) -> &[u8];

    /// Reads bytes back into a textual form.
    fn from_bytes(bytesin: &[u8]) -> String;
}

/// A value with a base64 representation.
pub trait Base64Transform<T: Clone> {
    /// The value, base64-encoded.
    fn to_base64(&self) -> String;

    /// Reads a base64 string back into a value, if it parses.
    fn from_base64(stringin: &str) -> Option<T>;
}

/// An enumeration with a canonical list of string names, one per
/// variant.  Implementers supply all five methods: the usual default
/// bodies would route through numeric conversion impls that cannot be
/// given contracts here.
pub trait EnumType where Self: Sized {
    /// The variant used when a name is not recognised.
    fn fallback() -> Self;

    /// The names of the variants, in order.
    fn as_vec() -> Vec<&'static str>;

    /// The variant named `s`, or the fallback.
    fn from_str(s: &str) -> Self;

    /// This variant's name.
    fn to_str(&self) -> &'static str;

    /// This variant's name, owned.
    fn str_value(&self) -> String;
}

} // verus!
