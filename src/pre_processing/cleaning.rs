use vstd::prelude::*;

use super::{is_lang_code, lang_table};
use crate::error::GolemError;

verus! {

/// The text `s` in lowercase, as `str::to_lowercase` gives it.
pub uninterp spec fn lower_of(s: Seq<char>) -> Seq<char>;

/// The stop-word list that the stop-words crate holds for a language code.
pub uninterp spec fn stop_words_of(code: Seq<char>) -> Option<Seq<Seq<char>>>;

/// `s` with every line feed turned into a space.
pub open spec fn spaced(s: Seq<char>) -> Seq<char> {
    s.map_values(|c: char| if c == '\n' { ' ' } else { c })
}

/// The ASCII whitespace characters: space, tab, line feed, form feed and
/// carriage return.
pub open spec fn is_ascii_ws(c: char) -> bool {
    c == ' ' || c == '\t' || c == '\n' || c == '\x0C' || c == '\r'
}

/// The words of `s`: its maximal runs of characters that are not ASCII
/// whitespace, left to right.
pub open spec fn ascii_words(s: Seq<char>) -> Seq<Seq<char>>
    decreases s.len(),
{
    if s.len() == 0 {
        Seq::empty()
    } else {
        let rest = ascii_words(s.drop_last());
        let c = s.last();
        if is_ascii_ws(c) {
            rest
        } else if s.len() > 1 && !is_ascii_ws(s[s.len() - 2]) {
            rest.update(rest.len() - 1, rest.last().push(c))
        } else {
            rest.push(seq![c])
        }
    }
}

/// The tokens that are not stop words, in order.
pub open spec fn keep_tokens(tokens: Seq<Seq<char>>, stop: Seq<Seq<char>>) -> Seq<Seq<char>> {
    tokens.filter(|t: Seq<char>| !stop.contains(t))
}

/// A lowercased text cleaned with the stop-word list `stop`: its words
/// but the stop words, joined with nothing between them.
pub open spec fn clean_text(lowered: Seq<char>, stop: Seq<Seq<char>>) -> Seq<char> {
    keep_tokens(ascii_words(spaced(lowered)), stop).flatten()
}

/// A language code can be cleaned for: it is in the table of codes and
/// the stop-words crate has a list for it.
pub open spec fn supported(code: Seq<char>) -> bool {
    lang_table().contains(code) && stop_words_of(code) is Some
}

/// The views of a vector of strings.
pub open spec fn views(v: Seq<String>) -> Seq<Seq<char>> {
    v.map_values(|t: String| t@)
}

/// Relies on `str::to_lowercase`: the lowercase form of the text, which
/// depends on its characters alone.
#[verifier::external_body]
fn lowercase(s: &str) -> (r: String)
    ensures
        r@ == lower_of(s@),
{
    s.to_lowercase()
}

/// Relies on `str::replace` with a `char` pattern: every `'\n'` becomes
/// `" "`, every other character is kept.
#[verifier::external_body]
fn newlines_to_spaces(s: &str) -> (r: String)
    ensures
        r@ == spaced(s@),
{
    s.replace('\n', " ")
}

/// Relies on `str::split_ascii_whitespace`: the sub-slices separated by
/// any amount of ASCII whitespace, without empty ones, in order.
#[verifier::external_body]
fn split_words(s: &str) -> (r: Vec<String>)
    ensures
        views(r@) == ascii_words(s@),
{
    s.split_ascii_whitespace().map(|t| t.to_owned()).collect()
}

/// Relies on `stop_words::lookup`: the built-in stop-word list of a
/// language code, or `None` where the crate has none for it.
#[verifier::external_body]
fn lookup_stop_words(code: &str) -> (r: Option<&'static [&'static str]>)
    ensures
        match r {
            Some(ws) => stop_words_of(code@) == Some(ws@.map_values(|w: &str| w@)),
            None => stop_words_of(code@) is None,
        },
{
    stop_words::lookup(code)
}

/// Whether `t` is one of `words`.
fn contains_word(words: &Vec<String>, t: &String) -> (r: bool)
    ensures
        r == views(words@).contains(t@),
{
    let mut i: usize = 0;
    while i < words.len()
        invariant
            0 <= i <= words@.len(),
            forall|j: int| 0 <= j < i ==> views(words@)[j] != t@,
        decreases words@.len() - i,
    {
        if words[i] == *t {
            proof {
                assert(views(words@)[i as int] == t@);
            }
            return true;
        }
        i = i + 1;
    }
    proof {
        if views(words@).contains(t@) {
            let j = choose|j: int| 0 <= j < views(words@).len() && views(words@)[j] == t@;
            assert(views(words@)[j] != t@);
        }
    }
    false
}

/// A raw text on its way to being cleaned, with its language.
pub struct CleanedData {
    pub raw_data: String,
    pub language_code: String,
    pub tokenized_data: Vec<String>,
}

impl CleanedData {
    /// The language is one that can be cleaned for.
    pub open spec fn wf(&self) -> bool {
        supported(self.language_code@)
    }

    /// The stop-word list of the language.
    pub open spec fn stop_words(&self) -> Seq<Seq<char>> {
        stop_words_of(self.language_code@)->0
    }

    /// Takes the text in lowercase; fails where the language code is not
    /// supported.
    pub fn new(raw_data: &str, language_code: &str) -> (r: Result<CleanedData, GolemError>)
        ensures
            r is Ok <==> supported(language_code@),
            r is Err ==> r == Err::<CleanedData, GolemError>(GolemError::UnsupportedLanguage),
            r matches Ok(d) ==> {
                &&& d.wf()
                &&& d.raw_data@ == lower_of(raw_data@)
                &&& d.language_code@ == language_code@
                &&& d.tokenized_data@.len() == 0
            },
    {
        if !is_lang_code(language_code) {
            return Err(GolemError::UnsupportedLanguage);
        }
        if lookup_stop_words(language_code).is_none() {
            return Err(GolemError::UnsupportedLanguage);
        }
        Ok(CleanedData {
            raw_data: lowercase(raw_data),
            language_code: language_code.to_owned(),
            tokenized_data: Vec::new(),
        })
    }

    /// Splits the text into its words.
    pub fn tokenizing(&mut self)
        ensures
            views(final(self).tokenized_data@) == ascii_words(old(self).raw_data@),
            final(self).raw_data == old(self).raw_data,
            final(self).language_code == old(self).language_code,
    {
        self.tokenized_data = split_words(self.raw_data.as_str());
    }

    /// Drops the words that are stop words of the language.
    pub fn stop_words_removal(&mut self)
        requires
            old(self).wf(),
        ensures
            views(final(self).tokenized_data@) == keep_tokens(
                views(old(self).tokenized_data@),
                old(self).stop_words(),
            ),
            final(self).raw_data == old(self).raw_data,
            final(self).language_code == old(self).language_code,
    {
        let ghost stop = self.stop_words();
        let found = lookup_stop_words(self.language_code.as_str());
        let list = match found {
            Some(ws) => ws,
            None => return,
        };
        let mut words: Vec<String> = Vec::new();
        let mut i: usize = 0;
        while i < list.len()
            invariant
                0 <= i <= list@.len(),
                stop == list@.map_values(|w: &str| w@),
                views(words@) =~= stop.subrange(0, i as int),
            decreases list@.len() - i,
        {
            let ghost before = words@;
            let w = list[i].to_owned();
            words.push(w);
            proof {
                assert(words@ =~= before.push(w));
                assert(views(before.push(w)) =~= views(before).push(w@));
                assert(stop.subrange(0, i + 1) =~= stop.subrange(0, i as int).push(stop[i as int]));
            }
            i = i + 1;
        }
        proof {
            assert(stop.subrange(0, stop.len() as int) =~= stop);
        }
        let ghost tokens = views(self.tokenized_data@);
        let ghost pred = |t: Seq<char>| !stop.contains(t);
        let mut kept: Vec<String> = Vec::new();
        let mut j: usize = 0;
        while j < self.tokenized_data.len()
            invariant
                0 <= j <= tokens.len(),
                tokens == views(self.tokenized_data@),
                views(words@) == stop,
                pred == (|t: Seq<char>| !stop.contains(t)),
                views(kept@) == tokens.subrange(0, j as int).filter(pred),
            decreases tokens.len() - j,
        {
            let t = &self.tokenized_data[j];
            proof {
                assert(tokens.subrange(0, j + 1) =~= tokens.subrange(0, j as int).push(t@));
                tokens.subrange(0, j as int).lemma_filter_push(t@, pred);
            }
            if !contains_word(&words, t) {
                kept.push(t.clone());
                proof {
                    assert(views(kept@) =~= tokens.subrange(0, j as int).filter(pred).push(t@));
                }
            }
            j = j + 1;
        }
        proof {
            assert(tokens.subrange(0, tokens.len() as int) =~= tokens);
        }
        self.tokenized_data = kept;
    }

    /// The cleaned text: line feeds become spaces, the text is split into
    /// words, stop words are dropped and the rest is joined with nothing
    /// between the words.
    pub fn cleaned_data(&mut self) -> (r: String)
        requires
            old(self).wf(),
        ensures
            r@ == clean_text(old(self).raw_data@, old(self).stop_words()),
            final(self).raw_data@ == spaced(old(self).raw_data@),
            views(final(self).tokenized_data@) == keep_tokens(
                ascii_words(spaced(old(self).raw_data@)),
                old(self).stop_words(),
            ),
            final(self).language_code == old(self).language_code,
            final(self).wf(),
    {
        self.raw_data = newlines_to_spaces(self.raw_data.as_str());
        self.tokenizing();
        self.stop_words_removal();
        let ghost toks = views(self.tokenized_data@);
        let mut joined = String::new();
        let mut i: usize = 0;
        while i < self.tokenized_data.len()
            invariant
                0 <= i <= toks.len(),
                toks == views(self.tokenized_data@),
                joined@ == toks.subrange(0, i as int).flatten(),
            decreases toks.len() - i,
        {
            proof {
                assert(toks.subrange(0, i + 1) =~= toks.subrange(0, i as int).push(toks[i as int]));
                toks.subrange(0, i as int).lemma_flatten_push(toks[i as int]);
            }
            joined.append(self.tokenized_data[i].as_str());
            i = i + 1;
        }
        proof {
            assert(toks.subrange(0, toks.len() as int) =~= toks);
        }
        joined
    }
}

} // verus!
