use std::collections::HashSet;
use vstd::prelude::*;

use crate::error::GolemError;
use crate::hash_stats::HashStats;
use crate::pre_processing::cleaning::{clean_text, lower_of, stop_words_of, supported};
use crate::pre_processing::prepare_data;
use vstd::utf8::encode_utf8;

verus! {

broadcast use vstd::std_specs::hash::group_hash_axioms;

/// Number of distinct values that occur in both sequences.
pub open spec fn shared_count(a: Seq<u64>, b: Seq<u64>) -> nat {
    a.to_set().intersect(b.to_set()).len()
}

/// The similarity rate of two fingerprint sequences, as the fraction
/// `(numerator, denominator)` of a percentage: twice the number of shared
/// distinct fingerprints over the total number of windows, times 100.
pub open spec fn rate_fraction(a: Seq<u64>, b: Seq<u64>) -> (int, int) {
    (200 * shared_count(a, b) as int, a.len() + b.len() as int)
}

/// The similarity rate does not depend on the order of the two documents.
pub proof fn lemma_rate_symmetric(a: Seq<u64>, b: Seq<u64>)
    ensures
        rate_fraction(a, b) == rate_fraction(b, a),
{
    assert(a.to_set().intersect(b.to_set()) =~= b.to_set().intersect(a.to_set()));
}

/// A document whose windows all hash differently is 100% similar to
/// itself: the fraction's numerator is 100 times its denominator.
pub proof fn lemma_rate_self(a: Seq<u64>)
    requires
        a.len() > 0,
        a.no_duplicates(),
    ensures
        rate_fraction(a, a).0 == 100 * rate_fraction(a, a).1,
        rate_fraction(a, a).1 > 0,
{
    assert(a.to_set().intersect(a.to_set()) =~= a.to_set());
    a.unique_seq_to_set();
}

/// Two documents that share no fingerprint have a similarity rate of 0.
pub proof fn lemma_rate_disjoint(a: Seq<u64>, b: Seq<u64>)
    requires
        a.to_set().disjoint(b.to_set()),
    ensures
        rate_fraction(a, b).0 == 0,
{
    assert(a.to_set().intersect(b.to_set()) =~= Set::empty());
}

/// Counts the distinct values that occur in both `first` and `second`.
pub fn count_shared(first: &Vec<u64>, second: &Vec<u64>) -> (r: usize)
    ensures
        r == shared_count(first@, second@),
{
    let mut set1: HashSet<u64> = HashSet::new();
    let mut i: usize = 0;
    while i < first.len()
        invariant
            0 <= i <= first@.len(),
            set1@ == first@.subrange(0, i as int).to_set(),
        decreases first@.len() - i,
    {
        proof {
            assert(first@.subrange(0, i + 1) =~= first@.subrange(0, i as int).push(first@[i as int]));
            first@.subrange(0, i as int).lemma_push_to_set_commute(first@[i as int]);
        }
        set1.insert(first[i]);
        i = i + 1;
    }
    proof {
        assert(first@.subrange(0, first@.len() as int) =~= first@);
    }
    let ghost all1 = first@.to_set();
    let mut seen: HashSet<u64> = HashSet::new();
    let mut count: usize = 0;
    let mut j: usize = 0;
    while j < second.len()
        invariant
            0 <= j <= second@.len(),
            set1@ == all1,
            all1 == first@.to_set(),
            seen@ == second@.subrange(0, j as int).to_set().intersect(all1),
            seen@.finite(),
            count == seen@.len(),
            count <= j,
        decreases second@.len() - j,
    {
        let x = second[j];
        proof {
            assert(second@.subrange(0, j + 1) =~= second@.subrange(0, j as int).push(x));
            second@.subrange(0, j as int).lemma_push_to_set_commute(x);
        }
        if set1.contains(&x) && !seen.contains(&x) {
            seen.insert(x);
            count = count + 1;
        }
        proof {
            assert(seen@ =~= second@.subrange(0, j + 1).to_set().intersect(all1));
        }
        j = j + 1;
    }
    proof {
        assert(second@.subrange(0, second@.len() as int) =~= second@);
        assert(seen@ =~= first@.to_set().intersect(second@.to_set()));
    }
    count
}

/// The cleaned form of a raw text in a supported language.
pub open spec fn cleaned(raw: Seq<char>, code: Seq<char>) -> Seq<char> {
    clean_text(lower_of(raw), stop_words_of(code)->0)
}

/// Cleans both texts in the language `lang_code` and fingerprints each
/// with windows of `k_gram_value` bytes. Fails on an unsupported language,
/// else on a k-gram length that is zero or longer than a cleaned text.
pub fn collect_stats(
    first_content: &str,
    second_content: &str,
    lang_code: &str,
    k_gram_value: usize,
) -> (r: Result<(HashStats, HashStats), GolemError>)
    ensures
        !supported(lang_code@) <==> r == Err::<(HashStats, HashStats), GolemError>(
            GolemError::UnsupportedLanguage,
        ),
        supported(lang_code@) ==> (r == Err::<(HashStats, HashStats), GolemError>(
            GolemError::InvalidKGram,
        ) <==> k_gram_value == 0 || encode_utf8(cleaned(first_content@, lang_code@)).len()
            < k_gram_value || encode_utf8(cleaned(second_content@, lang_code@)).len()
            < k_gram_value),
        r is Ok || r == Err::<(HashStats, HashStats), GolemError>(GolemError::UnsupportedLanguage)
            || r == Err::<(HashStats, HashStats), GolemError>(GolemError::InvalidKGram),
        r matches Ok((s1, s2)) ==> {
            &&& s1.wf()
            &&& s2.wf()
            &&& s1.body@ == cleaned(first_content@, lang_code@)
            &&& s2.body@ == cleaned(second_content@, lang_code@)
            &&& s1.k_gram_value == k_gram_value
            &&& s2.k_gram_value == k_gram_value
            &&& s1.hashes@ == s1.spec_fingerprints()
            &&& s2.hashes@ == s2.spec_fingerprints()
        },
{
    let content1 = match prepare_data(first_content, lang_code) {
        Ok(c) => c,
        Err(e) => return Err(e),
    };
    let content2 = match prepare_data(second_content, lang_code) {
        Ok(c) => c,
        Err(e) => return Err(e),
    };
    let mut stats1 = match HashStats::new(content1.as_str(), k_gram_value) {
        Ok(s) => s,
        Err(e) => return Err(e),
    };
    let mut stats2 = match HashStats::new(content2.as_str(), k_gram_value) {
        Ok(s) => s,
        Err(e) => return Err(e),
    };
    let _ = stats1.get_hashes();
    let _ = stats2.get_hashes();
    Ok((stats1, stats2))
}

/// The two terms of the similarity rate of two fingerprinted texts: the
/// number of distinct fingerprints they share, and their total number of
/// windows. The rate is `2 * shared / total * 100`.
pub fn similarity_terms(stats1: &HashStats, stats2: &HashStats) -> (r: (usize, usize))
    requires
        stats1.num_hashes + stats2.num_hashes <= usize::MAX,
    ensures
        r.0 == shared_count(stats1.hashes@, stats2.hashes@),
        r.1 == stats1.num_hashes + stats2.num_hashes,
{
    let shared = count_shared(&stats1.hashes, &stats2.hashes);
    (shared, stats1.num_hashes + stats2.num_hashes)
}

} // verus!
