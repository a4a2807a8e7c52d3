//! What becomes of one path: it lies in a module, or it is ignored, or it
//! counts and goes to the rules and areas that its text matches.

use crate::pattern::{pattern_find, pattern_matches, PatternView, RegexEq};
use crate::rules::{all_fold, patterns_of, RulesView};
use crate::text::{ends_with_separator, is_dir_path, match_text, push_char, strip_separator,
    SEPARATOR};
use vstd::prelude::*;

verus! {

/// What becomes of a path.
pub enum Class {
    /// The path lies in a module: it is handed on, without the root of the
    /// module, to the coverage of that module.
    Module { key: Seq<char>, rest: Seq<char> },
    /// The path matches the pattern of paths to ignore.
    Ignored,
    /// The path counts. It goes to the bucket of every listed rule in
    /// `records`, and may lie in an area of arbitrary or of generated content.
    Viable { records: Seq<int>, arbitrary: bool, generated: bool },
}

impl Class {
    /// Whether the path counts and nothing accounts for it.
    pub open spec fn is_out(self) -> bool {
        self matches Class::Viable { records, arbitrary, generated } && records.len() == 0
            && !arbitrary && !generated
    }
}

/// Whether a pattern of a standard matches somewhere in the text. The
/// patterns of a standard ignore letter case.
pub open spec fn rule_matches(pattern: Seq<char>, text: Seq<char>) -> bool {
    pattern_matches(pattern, true, text)
}

/// The leftmost match of a pattern of a standard in the text.
pub open spec fn rule_find(pattern: Seq<char>, text: Seq<char>) -> Option<
    (Seq<char>, Seq<char>, Seq<char>),
> {
    pattern_find(pattern, true, text)
}

/// Whether the pattern of paths to ignore matches somewhere in the text.
pub open spec fn ignore_matches(ignore: PatternView, text: Seq<char>) -> bool {
    pattern_matches(ignore.text, ignore.fold_case, text)
}

/// The separator, where the path is written as a directory.
pub open spec fn mark(path: Seq<char>) -> Seq<char> {
    if is_dir_path(path) {
        seq![SEPARATOR]
    } else {
        Seq::empty()
    }
}

/// What the pattern of a module root makes of a path: where the pattern
/// finds a match that is not empty, the root of the module, which is the
/// match without a separator at its end, and the path without the match. The
/// match is a piece of the text as the pattern sees it, so that the path
/// without it is shorter than the path.
pub open spec fn claim(pattern: Seq<char>, path: Seq<char>) -> Option<(Seq<char>, Seq<char>)> {
    match rule_find(pattern, match_text(path)) {
        Some((before, found, after)) => if found.len() > 0 && before + found + after
            == match_text(path) {
            Some((match_text(found), before + after + mark(path)))
        } else {
            None
        },
        None => None,
    }
}

/// What is left of a path that a module root claims is shorter than the
/// path.
pub proof fn lemma_claim_shortens(pattern: Seq<char>, path: Seq<char>)
    ensures
        claim(pattern, path) matches Some((key, rest)) ==> rest.len() < path.len(),
{
    match rule_find(pattern, match_text(path)) {
        Some((before, found, after)) => {
            if found.len() > 0 && before + found + after == match_text(path) {
                assert((before + found + after).len() == before.len() + found.len() + after.len());
            }
        },
        None => {},
    }
}

/// What is left of a path that the first of some module roots claims is
/// shorter than the path.
pub proof fn lemma_first_claim_shortens(patterns: Seq<Seq<char>>, path: Seq<char>, from: int)
    ensures
        first_claim(patterns, path, from) matches Some((key, rest)) ==> rest.len() < path.len(),
    decreases patterns.len() - from,
{
    if 0 <= from < patterns.len() {
        lemma_claim_shortens(patterns[from], path);
        lemma_first_claim_shortens(patterns, path, from + 1);
    }
}

/// The claim of the first pattern, from index `from` on, that makes one.
pub open spec fn first_claim(patterns: Seq<Seq<char>>, path: Seq<char>, from: int) -> Option<
    (Seq<char>, Seq<char>),
>
    decreases patterns.len() - from,
{
    if from < 0 || from >= patterns.len() {
        None
    } else {
        match claim(patterns[from], path) {
            Some(made) => Some(made),
            None => first_claim(patterns, path, from + 1),
        }
    }
}

/// Whether one of the patterns matches the text.
pub open spec fn any_match(patterns: Seq<Seq<char>>, text: Seq<char>) -> bool {
    exists|i: int| 0 <= i < patterns.len() && rule_matches(#[trigger] patterns[i], text)
}

/// The rules, in the order of the list, whose pattern matches the text.
pub open spec fn matching(leaves: Seq<(int, Seq<char>)>, text: Seq<char>) -> Seq<int>
    decreases leaves.len(),
{
    if leaves.len() == 0 {
        Seq::empty()
    } else {
        let before = matching(leaves.drop_last(), text);
        if rule_matches(leaves.last().1, text) {
            before.push(leaves.last().0)
        } else {
            before
        }
    }
}

/// What becomes of a path, in this order: a module root claims it; or the
/// pattern of paths to ignore matches it; or it counts. The patterns see the
/// path without the separator that marks a directory. An area of arbitrary
/// content is looked for only where no rule matches; an area of generated
/// content always.
pub open spec fn classify(rules: RulesView, ignore: PatternView, path: Seq<char>) -> Class {
    let text = match_text(path);
    match first_claim(rules.modules, path, 0) {
        Some((key, rest)) => Class::Module { key, rest },
        None => if ignore_matches(ignore, text) {
            Class::Ignored
        } else {
            let records = matching(rules.leaves, text);
            Class::Viable {
                records,
                arbitrary: records.len() == 0 && any_match(rules.arbitrary, text),
                generated: any_match(rules.generated, text),
            }
        },
    }
}

/// A path that lies in a module is handed on shorter than it came.
pub proof fn lemma_module_rest_shorter(rules: RulesView, ignore: PatternView, path: Seq<char>)
    ensures
        classify(rules, ignore, path) matches Class::Module { key, rest } ==> rest.len()
            < path.len(),
{
    lemma_first_claim_shortens(rules.modules, path, 0);
}

/// What becomes of a path, as the checker hands it on.
#[derive(Debug)]
pub enum Verdict {
    Module { key: String, rest: String },
    Ignored,
    Viable { records: Vec<usize>, arbitrary: bool, generated: bool },
}

impl View for Verdict {
    type V = Class;

    open spec fn view(&self) -> Class {
        match self {
            Verdict::Module { key, rest } => Class::Module { key: key@, rest: rest@ },
            Verdict::Ignored => Class::Ignored,
            Verdict::Viable { records, arbitrary, generated } => Class::Viable {
                records: Seq::new(records@.len(), |i: int| records@[i] as int),
                arbitrary: *arbitrary,
                generated: *generated,
            },
        }
    }
}

/// Whether one of the patterns matches the text. The patterns are those of
/// a standard, which ignore letter case.
pub fn matches_any(patterns: &Vec<RegexEq>, text: &str) -> (found: bool)
    requires
        all_fold(patterns@),
    ensures
        found == any_match(patterns_of(patterns@), text@),
{
    let mut i: usize = 0;
    while i < patterns.len()
        invariant
            i <= patterns.len(),
            all_fold(patterns@),
            forall|j: int|
                0 <= j < i ==> !rule_matches(#[trigger] patterns_of(patterns@)[j], text@),
        decreases patterns.len() - i,
    {
        assert(patterns@[i as int].ignores_case());
        if patterns[i].is_match(text) {
            assert(rule_matches(patterns_of(patterns@)[i as int], text@));
            return true;
        }
        i = i + 1;
    }
    false
}

/// The claim of the first module root that makes one on the path: the root
/// of the module and the path below it. The patterns are those of a
/// standard, which ignore letter case.
pub fn claim_module(patterns: &Vec<RegexEq>, path: &str) -> (made: Option<(String, String)>)
    requires
        all_fold(patterns@),
    ensures
        match made {
            Some((key, rest)) => first_claim(patterns_of(patterns@), path@, 0) == Some(
                (key@, rest@),
            ) && rest@.len() < path@.len(),
            None => first_claim(patterns_of(patterns@), path@, 0) is None,
        },
{
    let text = strip_separator(path);
    let dir = ends_with_separator(path);
    let mut i: usize = 0;
    while i < patterns.len()
        invariant
            i <= patterns.len(),
            all_fold(patterns@),
            text@ == match_text(path@),
            dir == is_dir_path(path@),
            first_claim(patterns_of(patterns@), path@, 0) == first_claim(
                patterns_of(patterns@),
                path@,
                i as int,
            ),
        decreases patterns.len() - i,
    {
        assert(patterns_of(patterns@)[i as int] == patterns@[i as int]@);
        assert(patterns@[i as int].ignores_case());
        match patterns[i].find(text) {
            Some((before, found, after)) => {
                if !found.as_str().is_empty() {
                    let key = strip_separator(found.as_str()).to_owned();
                    let mut rest = before;
                    rest.append(after.as_str());
                    if dir {
                        push_char(&mut rest, SEPARATOR);
                    }
                    assert(rest@ == before@ + after@ + mark(path@));
                    assert(text@.len() == before@.len() + found@.len() + after@.len());
                    return Some((key, rest));
                }
            },
            None => {},
        }
        i = i + 1;
    }
    None
}

/// No rule is among the matching ones exactly where no pattern of the list
/// matches the text.
pub proof fn lemma_matching_none(leaves: Seq<(int, Seq<char>)>, text: Seq<char>)
    ensures
        matching(leaves, text).len() == 0 <==> forall|k: int|
            0 <= k < leaves.len() ==> !rule_matches((#[trigger] leaves[k]).1, text),
    decreases leaves.len(),
{
    if leaves.len() > 0 {
        let before = leaves.drop_last();
        lemma_matching_none(before, text);
        if matching(leaves, text).len() == 0 {
            assert forall|k: int| 0 <= k < leaves.len() implies !rule_matches(
                (#[trigger] leaves[k]).1,
                text,
            ) by {
                if k < before.len() {
                    assert(before[k] == leaves[k]);
                }
            }
        } else {
            if matching(before, text).len() == 0 {
                assert(rule_matches(leaves[leaves.len() - 1].1, text));
            } else {
                let k = choose|k: int|
                    0 <= k < before.len() && rule_matches((#[trigger] before[k]).1, text);
                assert(before[k] == leaves[k]);
            }
        }
    }
}

} // verus!
