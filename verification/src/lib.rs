//! OAuth 1.0a request signing.
//!
//! The library builds the canonical signature base string for a request,
//! derives the signing key, computes the HMAC-SHA1 signature (through the
//! `hmac-sha1` and `base64` crates) and assembles the `Authorization`
//! header that the surrounding web code attaches to its requests.

pub mod canonical;
pub mod encoding;
pub mod form;
pub mod numeral;
pub mod signer;
pub mod state;
