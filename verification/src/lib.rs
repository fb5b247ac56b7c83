//! A byte-pair-encoding (BPE) subword tokenizer.
//!
//! The library learns a vocabulary and an ordered list of merge rules from a
//! training corpus, encodes text into integer token IDs with those rules, and
//! decodes ID sequences back to text.  Vocabularies and merge tables can be
//! saved to and loaded from a native textual format, and externally trained
//! rank tables can be imported.
#![verifier::loop_isolation(false)]

use vstd::prelude::*;

pub mod text;
pub mod vocab;
pub mod tokenizer;
pub mod train;
pub mod persist;
pub mod laws;

verus! {

/// The failure conditions reported by the tokenizer.
#[derive(Clone, Copy, Debug, PartialEq, Eq, Structural)]
pub enum TokError {
    /// Malformed or empty training / encoding input.
    InvalidInput,
    /// An ID or a string was absent from a vocabulary where presence was required.
    NotFound,
    /// A malformed persisted file: wrong record structure or unresolvable reference.
    InvalidData,
}

} // verus!
