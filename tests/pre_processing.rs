use golem::pre_processing::cleaning::CleanedData;
use golem::pre_processing::{is_lang_code, prepare_data, LANG_CODES};
use golem::GolemError;

#[test]
#[allow(non_snake_case)]
fn test_create_cleaned_data__raw_data() {
    let cd = CleanedData::new("A ignorância é a mãe de todas as doenças", "pt").unwrap();
    assert_eq!(
        cd.raw_data,
        cd.raw_data.to_ascii_lowercase(),
        "`raw_data` should be stored in lowercase"
    )
}

#[test]
#[allow(non_snake_case)]
fn test_create_cleaned_data__tokenized_data() {
    let cd = CleanedData::new("Ei kysyvä tieltä eksy", "fi").unwrap();
    assert!(
        cd.tokenized_data.is_empty(),
        "`tokenized_data` should start empty"
    )
}

#[test]
fn test_tokenizing() {
    let mut cd = CleanedData::new("En casa del herrero cuchillo de palo", "es").unwrap();
    let _ = cd.cleaned_data();
    assert_eq!(
        vec!["casa", "herrero", "cuchillo", "palo"],
        cd.tokenized_data
    );
}

#[test]
fn test_lang_codes_is_sorted() {
    let mut lang_codes = LANG_CODES.clone();
    lang_codes.sort_unstable();
    assert_eq!(LANG_CODES, lang_codes, "`LANG_CODES` should be sorted");
}

#[test]
fn test_prepare_data() {
    let cleaned = prepare_data("You have thrown a spanner in the works", "en").unwrap();
    assert_eq!(
        "thrownspanner",
        cleaned.as_str(),
        "Should return a string without space or stop-words"
    );
}

#[test]
fn new_rejects_language_name() {
    let r = CleanedData::new("O Rato Roeu a Roupa do Rei de Roma", "portuguese");
    assert_eq!(Some(GolemError::UnsupportedLanguage), r.err());
}

#[test]
fn new_lowercases_raw_text() {
    let cd = CleanedData::new("A Ignorância É", "pt").unwrap();
    assert_eq!("a ignorância é", cd.raw_data);
    assert_eq!("pt", cd.language_code);
}

#[test]
fn lang_codes_membership() {
    assert!(is_lang_code("en"));
    assert!(is_lang_code("aa"));
    assert!(is_lang_code("zu"));
    assert!(!is_lang_code("xx"));
    assert!(!is_lang_code("EN"));
    assert!(!is_lang_code(""));
}

#[test]
fn prepare_data_turns_newlines_into_separators() {
    let cleaned = prepare_data("Thrown\nSpanner\tworks\r\nhere", "en").unwrap();
    assert_eq!("thrownspanner", cleaned);
}

#[test]
fn tokenizing_splits_on_ascii_whitespace() {
    let mut cd = CleanedData::new("  alpha\tbeta\x0cgamma  ", "en").unwrap();
    cd.tokenizing();
    assert_eq!(vec!["alpha", "beta", "gamma"], cd.tokenized_data);
}

#[test]
fn stop_words_removal_keeps_order() {
    let mut cd = CleanedData::new("the cat and the hat", "en").unwrap();
    cd.tokenizing();
    cd.stop_words_removal();
    assert_eq!(vec!["cat", "hat"], cd.tokenized_data);
}

#[test]
fn prepare_data_of_only_stop_words_is_empty() {
    assert_eq!("", prepare_data("The a AN", "en").unwrap());
}

#[test]
fn prepare_data_rejects_unknown_code() {
    assert_eq!(
        Some(GolemError::UnsupportedLanguage),
        prepare_data("anything", "xx").err()
    );
}
