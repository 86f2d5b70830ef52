//! A verified utility library around a hierarchical, delimiter-segmented
//! multimap tree, with stateless helpers for base64, digests, one-time
//! passwords, HTTP tables and content negotiation, and clock arithmetic.

pub mod btree;
pub mod genericutils;
pub mod gentraits;
pub mod httputils;
pub mod timeutils;
