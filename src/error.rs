use vstd::prelude::*;

verus! {

/// Why a pipeline step refused its input.
#[derive(Debug, Clone, Copy, PartialEq, Eq, Structural)]
pub enum GolemError {
    /// The k-gram length is zero, or longer than the text it is taken from.
    InvalidKGram,
    /// The language code is not one of the supported codes, or no stop-word
    /// list is known for it.
    UnsupportedLanguage,
}

} // verus!
