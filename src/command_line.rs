use vstd::prelude::*;

verus! {

/// What a similarity check between two files is asked with: the two
/// paths, the language code of their text and the k-gram length.
pub struct Args {
    pub first_file: String,
    pub second_file: String,
    pub lang_code: String,
    pub kgram_value: usize,
}

} // verus!
