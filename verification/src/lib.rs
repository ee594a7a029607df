//! Word n-gram tables with a trie-backed continuation index.
//!
//! The build half turns a corpus fragment into per-order n-gram frequency
//! tables and frequency-descending ranked lists. The query half loads a
//! ranked table into a word trie and streams depth-bounded candidate
//! continuations for seed phrases.

use vstd::prelude::*;

pub mod clean;
pub mod laws;
pub mod query;
pub mod table;
pub mod text;
pub mod trie;

verus! {

/// The failure kinds of the build and query paths. The verified core only
/// ever produces `MalformedTableRecord`; the I/O kinds are reported by the
/// surrounding command-line layer.
#[derive(Clone, Copy, Debug, PartialEq, Eq, Structural)]
pub enum NgramError {
    /// A corpus or table file could not be read.
    InputReadFailure,
    /// A table or result write failed.
    OutputWriteFailure,
    /// A frequency-table line lacks its tab separator or its frequency
    /// field is not a decimal number.
    MalformedTableRecord,
    /// The downstream consumer closed its end; recovered as success.
    BrokenConsumer,
}

/// Sentence-boundary markers: an n-gram window containing one is discarded.
pub open spec fn is_boundary_token(t: Seq<char>) -> bool {
    t == seq!['.'] || t == seq!['?'] || t == seq!['!']
}

/// Whether an executable token is one of the sentence-boundary markers.
pub fn is_boundary(t: &str) -> (r: bool)
    ensures
        r == is_boundary_token(t@),
{
    if t.unicode_len() == 1 {
        let c = t.get_char(0);
        let r = c == '.' || c == '?' || c == '!';
        proof {
            assert(t@ =~= seq![t@[0]]);
        }
        r
    } else {
        false
    }
}

} // verus!
