use vstd::prelude::*;

pub mod cleaning;

use crate::error::GolemError;
use cleaning::{clean_text, lower_of, stop_words_of, supported, CleanedData};

verus! {

/// The supported language codes (ISO 639-1), sorted.
pub const LANG_CODES: [&'static str; 183] = [
    "aa", "ab", "ae", "af", "ak", "am", "an", "ar", "as", "av", "ay", "az", "ba", "be", "bg", "bi",
    "bm", "bn", "bo", "br", "bs", "ca", "ce", "ch", "co", "cr", "cs", "cu", "cv", "cy", "da", "de",
    "dv", "dz", "ee", "el", "en", "eo", "es", "et", "eu", "fa", "ff", "fi", "fj", "fo", "fr", "fy",
    "ga", "gd", "gl", "gn", "gu", "gv", "ha", "he", "hi", "ho", "hr", "ht", "hu", "hy", "hz", "ia",
    "id", "ie", "ig", "ii", "ik", "io", "is", "it", "iu", "ja", "jv", "ka", "kg", "ki", "kj", "kk",
    "kl", "km", "kn", "ko", "kr", "ks", "ku", "kv", "kw", "ky", "la", "lb", "lg", "li", "ln", "lo",
    "lt", "lu", "lv", "mg", "mh", "mi", "mk", "ml", "mn", "mr", "ms", "mt", "my", "na", "nb", "nd",
    "ne", "ng", "nl", "nn", "no", "nr", "nv", "ny", "oc", "oj", "om", "or", "os", "pa", "pi", "pl",
    "ps", "pt", "qu", "rm", "rn", "ro", "ru", "rw", "sa", "sc", "sd", "se", "sg", "si", "sk", "sl",
    "sm", "sn", "so", "sq", "sr", "ss", "st", "su", "sv", "sw", "ta", "te", "tg", "th", "ti", "tk",
    "tl", "tn", "to", "tr", "ts", "tt", "tw", "ty", "ug", "uk", "ur", "uz", "ve", "vi", "vo", "wa",
    "wo", "xh", "yi", "yo", "za", "zh", "zu",
];

/// The supported language codes, as character sequences.
pub open spec fn lang_table() -> Seq<Seq<char>> {
    LANG_CODES@.map_values(|c: &str| c@)
}

/// Whether `code` is one of the supported language codes.
pub fn is_lang_code(code: &str) -> (r: bool)
    ensures
        r == lang_table().contains(code@),
{
    let wanted = code.to_owned();
    let mut i: usize = 0;
    while i < LANG_CODES.len()
        invariant
            0 <= i <= LANG_CODES@.len(),
            wanted@ == code@,
            forall|j: int| 0 <= j < i ==> lang_table()[j] != code@,
        decreases LANG_CODES@.len() - i,
    {
        let candidate = LANG_CODES[i].to_owned();
        if candidate == wanted {
            proof {
                assert(lang_table()[i as int] == code@);
            }
            return true;
        }
        i = i + 1;
    }
    proof {
        if lang_table().contains(code@) {
            let j = choose|j: int| 0 <= j < lang_table().len() && lang_table()[j] == code@;
            assert(lang_table()[j] != code@);
        }
    }
    false
}

/// Cleans a raw text for fingerprinting in the language `language_code`:
/// lowercased, split on whitespace, stop words dropped, and the remaining
/// words joined with nothing between them.
pub fn prepare_data(raw_data: &str, language_code: &str) -> (r: Result<String, GolemError>)
    ensures
        r is Ok <==> supported(language_code@),
        r is Err ==> r == Err::<String, GolemError>(GolemError::UnsupportedLanguage),
        r matches Ok(s) ==> s@ == clean_text(
            lower_of(raw_data@),
            stop_words_of(language_code@)->0,
        ),
{
    match CleanedData::new(raw_data, language_code) {
        Ok(mut data) => Ok(data.cleaned_data()),
        Err(e) => Err(e),
    }
}

} // verus!
