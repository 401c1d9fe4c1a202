//! A token-stream transform engine for legacy SGML-based financial exports.
//!
//! The engine lexes an SGML-like document into a flat token sequence, scans
//! the sequence for transaction-name fields that carry a trailing `DD.MM.YY`
//! date, rewrites each such field into a cleaned name plus a normalized
//! `YYYYMMDD` date token, and serializes the result back to text.  All edits
//! found during the scan are staged in a ledger and applied in one pass, so
//! the scan never observes a mutated sequence.

pub mod date;
pub mod engine;
pub mod laws;
pub mod ledger;
pub mod render;
pub mod rewrite;
pub mod roundtrip;
pub mod scan;
pub mod strutil;
pub mod text;
pub mod tokenize;
pub mod token;
