use golem::plagiarism_rate::{collect_stats, count_shared, similarity_terms};
use golem::{GolemError, HashStats};

const FLOAT_TOL: f64 = 0.000_366_210_94;
const CONTENT_1: &str = r#"
    plagiarism is an act or instance of using or closely imitating the
    language and thoughts of another author without authorization
    "#;
const CONTENT_2: &str = r#"
    plagiarism is an act of copying the ideas or words of another person
    without giving credit to that person
    "#;

fn rate(stats1: &HashStats, stats2: &HashStats) -> f64 {
    let (shared, total) = similarity_terms(stats1, stats2);
    ((2.0 * shared as f64) / total as f64) * 100.0
}

fn close(a: f64, b: f64, tol: f64) -> bool {
    (a - b).abs() <= tol * a.abs().max(b.abs())
}

fn stats_of(body: &str, k: usize) -> HashStats {
    let mut stats = HashStats::new(body, k).unwrap();
    let _ = stats.get_hashes();
    stats
}

#[test]
fn test_calculate_rate_case_1() {
    let (stats1, stats2) = collect_stats(CONTENT_1, CONTENT_2, "en", 10).unwrap();
    let plagi_rate = rate(&stats1, &stats2);
    assert!(close(plagi_rate, 2.41, FLOAT_TOL), "{}", plagi_rate);
}

#[test]
fn test_calculate_rate_case_2() {
    let (stats1, stats2) = collect_stats(CONTENT_1, CONTENT_2, "en", 5).unwrap();
    let plagi_rate = rate(&stats1, &stats2);
    assert!(close(plagi_rate, 12.90, FLOAT_TOL), "{}", plagi_rate);
}

#[test]
fn collect_stats_rejects_unknown_language() {
    let r = collect_stats(CONTENT_1, CONTENT_2, "xx", 5);
    assert_eq!(Some(GolemError::UnsupportedLanguage), r.err());
}

#[test]
fn collect_stats_rejects_kgram_longer_than_cleaned_text() {
    let r = collect_stats(CONTENT_1, "the a an", "en", 5);
    assert_eq!(Some(GolemError::InvalidKGram), r.err());
    let r = collect_stats(CONTENT_1, CONTENT_2, "en", 0);
    assert_eq!(Some(GolemError::InvalidKGram), r.err());
}

#[test]
fn collect_stats_fingerprints_cleaned_texts() {
    let (stats1, stats2) =
        collect_stats("You have thrown a spanner in the works", "thrown spanner", "en", 3).unwrap();
    assert_eq!("thrownspanner", stats1.body);
    assert_eq!("thrownspanner", stats2.body);
    assert_eq!(11, stats1.hashes.len());
    assert_eq!(stats1.hashes, stats2.hashes);
}

#[test]
fn count_shared_counts_distinct_values() {
    assert_eq!(1, count_shared(&vec![1, 1, 2], &vec![1, 3, 1]));
    assert_eq!(0, count_shared(&vec![], &vec![1]));
    assert_eq!(2, count_shared(&vec![5, 4, 3], &vec![3, 5]));
}

#[test]
fn similarity_terms_use_raw_window_counts() {
    let a = stats_of("aaaa", 1);
    let b = stats_of("ab", 1);
    assert_eq!((1, 6), similarity_terms(&a, &b));
}

#[test]
fn rate_is_symmetric() {
    let a = stats_of("plagiarismisanact", 4);
    let b = stats_of("anactofcopying", 4);
    let (s1, t1) = similarity_terms(&a, &b);
    let (s2, t2) = similarity_terms(&b, &a);
    assert_eq!((s1, t1), (s2, t2));
    assert_eq!(rate(&a, &b), rate(&b, &a));
}

#[test]
fn rate_of_text_with_itself_is_100() {
    let a = stats_of("abcdefgh", 3);
    let b = stats_of("abcdefgh", 3);
    assert_eq!(100.0, rate(&a, &b));
}

#[test]
fn rate_of_text_with_repeated_windows_with_itself_is_below_100() {
    let a = stats_of("aaaa", 1);
    let b = stats_of("aaaa", 1);
    assert_eq!(25.0, rate(&a, &b));
}

#[test]
fn rate_of_disjoint_texts_is_0() {
    let a = stats_of("abcd", 2);
    let b = stats_of("wxyz", 2);
    assert_eq!(0.0, rate(&a, &b));
}
