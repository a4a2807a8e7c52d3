//! Compiled path patterns, and what is taken on trust about the `regex` crate.
//!
//! A pattern is compiled by `RegexBuilder` from its text, with letter case
//! either kept or ignored, and by nothing else, so that what a pattern
//! matches rests on its text and on that choice alone.

use crate::text::same_text;
use regex::{Regex, RegexBuilder};
use vstd::prelude::*;
use vstd::std_specs::cmp::PartialEqSpecImpl;

verus! {

/// The compiled regular expression of the `regex` crate. Nothing of its
/// inside is known here; it is carried from where it is made to where it is
/// run.
#[verifier::external_type_specification]
#[verifier::external_body]
pub struct ExRegex(regex::Regex);

/// Whether the `regex` crate takes the pattern text, compiled with letter
/// case ignored or kept.
pub uninterp spec fn pattern_compiles(pattern: Seq<char>, fold_case: bool) -> bool;

/// Whether the pattern, compiled with letter case ignored or kept, matches
/// somewhere in the text.
pub uninterp spec fn pattern_matches(pattern: Seq<char>, fold_case: bool, text: Seq<char>) -> bool;

/// The first match in the text of the pattern, compiled with letter case
/// ignored or kept, the leftmost: the text before it, the matched text, and
/// the text behind it.
pub uninterp spec fn pattern_find(pattern: Seq<char>, fold_case: bool, text: Seq<char>) -> Option<
    (Seq<char>, Seq<char>, Seq<char>),
>;

/// `Regex::clone` makes another regex of the first. Nothing is claimed of
/// it here; that the clone matches as the first does goes into what is
/// trusted of matching.
pub assume_specification[ <Regex as Clone>::clone ](re: &Regex) -> (copy: Regex)
;

/// A compiled pattern, identified by its text and by whether it ignores
/// letter case. The regex inside is always one that `RegexBuilder` made of
/// that text with that choice, or a clone of such a one.
#[derive(Debug)]
pub struct RegexEq {
    text: String,
    fold_case: bool,
    regex: Regex,
}

/// What a pattern rests on: its text, and whether it ignores letter case.
pub struct PatternView {
    pub text: Seq<char>,
    pub fold_case: bool,
}

impl View for RegexEq {
    type V = Seq<char>;

    closed spec fn view(&self) -> Seq<char> {
        self.text@
    }
}

/// `RegexBuilder::new(text).case_insensitive(fold_case).build()` hands back
/// either an error, which is dropped here, or the regex of the pattern text,
/// which is kept together with that text and that choice. Whether it is the
/// one or the other rests on the text and the choice alone.
#[verifier::external_body]
fn compile(text: &str, fold_case: bool) -> (compiled: Option<RegexEq>)
    ensures
        compiled is Some <==> pattern_compiles(text@, fold_case),
        compiled matches Some(pattern) ==> pattern@ == text@ && pattern.ignores_case()
            == fold_case,
{
    match RegexBuilder::new(text).case_insensitive(fold_case).build() {
        Ok(regex) => Some(RegexEq { text: text.to_owned(), fold_case, regex }),
        Err(_) => None,
    }
}

/// `Regex::is_match` says whether the pattern matches anywhere in the
/// haystack. For a regex that `RegexBuilder` made, or a clone of it, that
/// rests on the pattern text, the choice on letter case and the haystack
/// alone.
#[verifier::external_body]
fn matches(pattern: &RegexEq, haystack: &str) -> (found: bool)
    ensures
        found == pattern_matches(pattern@, pattern.ignores_case(), haystack@),
{
    pattern.regex.is_match(haystack)
}

/// `Regex::find` returns the leftmost match. For a regex that
/// `RegexBuilder` made, or a clone of it, that rests on the pattern text, the
/// choice on letter case and the haystack alone. The match is a piece of the
/// haystack: what stands before it, the match and what stands behind it make
/// up the haystack.
#[verifier::external_body]
fn find_first(pattern: &RegexEq, haystack: &str) -> (found: Option<(String, String, String)>)
    ensures
        match found {
            Some((before, matched, after)) => pattern_find(
                pattern@,
                pattern.ignores_case(),
                haystack@,
            ) == Some((before@, matched@, after@)) && before@ + matched@ + after@ == haystack@,
            None => pattern_find(pattern@, pattern.ignores_case(), haystack@) is None,
        },
{
    match pattern.regex.find(haystack) {
        Some(m) => Some(
            (
                haystack[..m.start()].to_string(),
                m.as_str().to_string(),
                haystack[m.end()..].to_string(),
            ),
        ),
        None => None,
    }
}

impl PartialEq for RegexEq {
    /// Two patterns are equal where their texts are, and both ignore letter
    /// case or both keep it.
    fn eq(&self, other: &RegexEq) -> (same: bool) {
        self.fold_case == other.fold_case && same_text(self.text.as_str(), other.text.as_str())
    }
}

impl PartialEqSpecImpl for RegexEq {
    open spec fn obeys_eq_spec() -> bool {
        true
    }

    open spec fn eq_spec(&self, other: &RegexEq) -> bool {
        self@ == other@ && self.ignores_case() == other.ignores_case()
    }
}

impl Eq for RegexEq {

}

impl RegexEq {
    /// Whether the pattern ignores letter case.
    pub closed spec fn ignores_case(&self) -> bool {
        self.fold_case
    }

    /// What the pattern rests on: its text, and whether it ignores letter
    /// case.
    pub open spec fn model(&self) -> PatternView {
        PatternView { text: self@, fold_case: self.ignores_case() }
    }

    /// Compiles a pattern that keeps letter case as it is written; `None`
    /// exactly where the `regex` crate does not take the text.
    pub fn parse(text: &str) -> (r: Option<RegexEq>)
        ensures
            r is Some <==> pattern_compiles(text@, false),
            r matches Some(pattern) ==> pattern@ == text@ && !pattern.ignores_case(),
    {
        compile(text, false)
    }

    /// Compiles a pattern that ignores letter case; `None` exactly where the
    /// `regex` crate does not take the text.
    pub fn parse_ignoring_case(text: &str) -> (r: Option<RegexEq>)
        ensures
            r is Some <==> pattern_compiles(text@, true),
            r matches Some(pattern) ==> pattern@ == text@ && pattern.ignores_case(),
    {
        compile(text, true)
    }

    /// The text that the pattern was compiled from.
    pub fn as_str(&self) -> (text: &str)
        ensures
            text@ == self@,
    {
        self.text.as_str()
    }

    /// Whether the pattern ignores letter case.
    pub fn folds_case(&self) -> (fold: bool)
        ensures
            fold == self.ignores_case(),
    {
        self.fold_case
    }

    /// Whether the pattern matches somewhere in the text.
    pub fn is_match(&self, text: &str) -> (found: bool)
        ensures
            found == pattern_matches(self@, self.ignores_case(), text@),
    {
        matches(self, text)
    }

    /// The leftmost match of the pattern in the text: the text before it, the
    /// matched text, and the text behind it.
    pub fn find(&self, text: &str) -> (found: Option<(String, String, String)>)
        ensures
            match found {
                Some((before, matched, after)) => pattern_find(
                    self@,
                    self.ignores_case(),
                    text@,
                ) == Some((before@, matched@, after@)) && before@ + matched@ + after@ == text@,
                None => pattern_find(self@, self.ignores_case(), text@) is None,
            },
    {
        find_first(self, text)
    }

    /// A copy of the pattern, of the same text and the same choice on
    /// letter case.
    pub fn duplicate(&self) -> (copy: RegexEq)
        ensures
            copy@ == self@,
            copy.ignores_case() == self.ignores_case(),
    {
        RegexEq { text: self.text.clone(), fold_case: self.fold_case, regex: self.regex.clone() }
    }
}

} // verus!
