//! Cutting a text into the words that are counted.

use vstd::prelude::*;

verus! {

/// The pattern of a word: one or more word characters.
pub const WORD_PATTERN: &'static str = r"\w+";

/// The lower-case form of `text`, as `str::to_lowercase` gives it.
pub uninterp spec fn lowercase_of(text: Seq<char>) -> Seq<char>;

/// The successive matches of `pattern` in `text`, from left to right, as the
/// `regex` crate finds them; `None` where it refuses the pattern.
pub uninterp spec fn pattern_matches(pattern: Seq<char>, text: Seq<char>) -> Option<
    Seq<Seq<char>>,
>;

/// The texts of a sequence of strings.
pub open spec fn views_of(words: Seq<String>) -> Seq<Seq<char>> {
    Seq::new(words.len(), |i: int| words[i]@)
}

/// The words of `text`: the matches of the word pattern in its lower-case
/// form.
pub open spec fn words_of(text: Seq<char>) -> Seq<Seq<char>> {
    match pattern_matches(WORD_PATTERN@, lowercase_of(text)) {
        Some(found) => found,
        None => Seq::empty(),
    }
}

/// Calls `str::to_lowercase`. Assumed, not proved: the result is a function
/// of the text alone, named `lowercase_of`.
#[verifier::external_body]
fn to_lowercase(text: &str) -> (lower: String)
    ensures
        lower@ == lowercase_of(text@),
{
    text.to_lowercase()
}

/// Compiles `pattern` with `regex::Regex::new` and collects the matches that
/// `Regex::find_iter` yields in `text`. Assumed, not proved: the outcome is a
/// function of the pattern and the text alone, named `pattern_matches`.
#[verifier::external_body]
fn find_matches(pattern: &str, text: &str) -> (found: Option<Vec<String>>)
    ensures
        match found {
            Some(matches) => pattern_matches(pattern@, text@) == Some(views_of(matches@)),
            None => pattern_matches(pattern@, text@) is None,
        },
{
    match regex::Regex::new(pattern) {
        Ok(compiled) => Some(compiled.find_iter(text).map(|m| m.as_str().to_string()).collect()),
        Err(_) => None,
    }
}

/// Cuts `text` into its words, in lower case and in order of appearance.
pub fn words(text: &str) -> (found: Vec<String>)
    ensures
        views_of(found@) == words_of(text@),
{
    let lower = to_lowercase(text);
    match find_matches(WORD_PATTERN, lower.as_str()) {
        Some(matches) => matches,
        None => {
            let none: Vec<String> = Vec::new();
            assert(views_of(none@) =~= Seq::<Seq<char>>::empty());
            none
        },
    }
}

} // verus!
