//! Two compressed bitset codecs: a word-aligned hybrid code over 32-bit
//! words (`concise`) and a prefix-coded run-length code over bit streams
//! (`rleplus`).

pub mod bitstore;
pub mod concise;
pub mod rle;
pub mod rleplus;
