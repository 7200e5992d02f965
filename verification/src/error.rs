//! The failure outcomes of tokenizing and parsing.

use vstd::prelude::*;

verus! {

/// One kind of failure, raised at the first point where the input cannot be
/// scanned or parsed any further.  A single failure aborts the whole
/// tokenize/parse/format call; there is no recovery and no partial result.
#[derive(Clone, Copy, Debug, PartialEq, Eq, Structural)]
pub enum JsonError {
    /// The tokenizer met a character that is not valid at the current scan
    /// position.
    UnexpectedCharacter,
    /// An alphabetic run did not match `true`, `false` or `null`.
    UnrecognizedKeyword,
    /// A run of digits and dots is not a well-formed decimal numeral.
    MalformedNumber,
    /// The parser's lookahead did not match any production alternative at the
    /// current grammar position.
    UnexpectedToken,
    /// A string literal was still open when the character stream ran out.
    UnterminatedInput,
}

} // verus!
