//! Removing duplicate files from a directory, decided by content fingerprints.
//!
//! `fingerprint` turns file content, fed in chunks, into an uppercase
//! hexadecimal SHA-256 digest; `dedup` groups the fingerprinted entries of a
//! directory and plans which of them are deleted.
pub mod dedup;
pub mod fingerprint;
