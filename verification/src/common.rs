//! What signing, verification and parsing share.

pub mod base32;
pub mod base64;
pub mod crypto;
pub mod verify;
