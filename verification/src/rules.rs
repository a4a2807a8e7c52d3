//! A standard made ready for checking: its tree of rules, and the pattern
//! lists for modules, arbitrary content and generated content that follow
//! from the tree.

use crate::format::{distinct, DirStd, Rec};
use crate::pattern::{pattern_compiles, RegexEq};
use crate::text::{push_char, same_text, SEPARATOR};
use crate::builder::{anchored, create, distinct_places, first_flaw, patterns_compile, rule_pattern,
    BuildError};
use crate::order::lists;
use crate::tree::Tree;
use vstd::prelude::*;

verus! {

/// The pattern lists that follow from the rules of a standard.
#[derive(Debug, Clone, Copy, PartialEq, Eq, Structural)]
pub enum Derived {
    /// The roots of modules: rules flagged as modules.
    Module,
    /// Areas of arbitrary content: rules whose flag for it is set to true.
    Arbitrary,
    /// Areas of generated content: rules flagged as generated.
    Generated,
}

/// Whether the rule adds a pattern to the list.
pub open spec fn selects(kind: Derived, rule: &Rec) -> bool {
    match kind {
        Derived::Module => rule.module,
        Derived::Arbitrary => rule.arbitrary_content == Some(true),
        Derived::Generated => rule.generated,
    }
}

/// The pattern with `/.*` put in before its last character, the closing
/// anchor: it then matches everything below the directory.
pub open spec fn widened(pattern: Seq<char>) -> Seq<char> {
    pattern.drop_last() + "/.*"@ + seq![pattern.last()]
}

/// The pattern with its last character, the closing anchor, replaced by the
/// separator: it then matches the directory as the beginning of a path.
pub open spec fn as_prefix(pattern: Seq<char>) -> Seq<char> {
    pattern.drop_last().push(SEPARATOR)
}

/// The pattern that a rule adds to a list, made from the pattern for the
/// rule's path. The rule of a file adds that pattern as it is.
pub open spec fn shaped(kind: Derived, directory: bool, pattern: Seq<char>) -> Seq<char> {
    if !directory {
        pattern
    } else {
        match kind {
            Derived::Module => as_prefix(pattern),
            _ => widened(pattern),
        }
    }
}

/// The pattern that a rule adds to a list, as the rules alone give it.
pub open spec fn rule_shape(rules: Seq<Rec>, kind: Derived, record: int) -> Seq<char> {
    shaped(kind, rules[record].directory, rule_pattern(rules, record))
}

/// Whether the `regex` crate takes the pattern that every rule of a
/// directory adds to the list. The rule of a file adds the pattern of its
/// path, which is compiled already.
pub open spec fn shapes_compile(rules: Seq<Rec>, kind: Derived) -> bool {
    forall|r: int|
        0 <= r < rules.len() && selects(kind, &rules[r]) && rules[r].directory
            ==> pattern_compiles(#[trigger] rule_shape(rules, kind, r), true)
}

/// The texts of the patterns.
pub open spec fn patterns_of(list: Seq<RegexEq>) -> Seq<Seq<char>> {
    Seq::new(list.len(), |i: int| list[i]@)
}

/// Whether every pattern of the list ignores letter case.
pub open spec fn all_fold(list: Seq<RegexEq>) -> bool {
    forall|i: int| 0 <= i < list.len() ==> (#[trigger] list[i]).ignores_case()
}

/// An anchored pattern is never empty, and ends in the closing anchor.
pub proof fn lemma_anchored_ends(chain: Seq<Seq<char>>)
    ensures
        anchored(chain).len() >= 2,
        anchored(chain).last() == '$',
{
    reveal_strlit(")$");
    let text = anchored(chain);
    assert(text.len() >= 2);
    assert(text.last() == ")$"@[1]);
}

impl Tree {
    /// The rule of the `k`-th listed node, by its index in the standard.
    pub open spec fn leaf_rule(&self, k: int) -> int {
        self.nodes@[self.rec_nodes@[k] as int].value->0 as int
    }

    /// The text of the pattern on the `k`-th listed node.
    pub open spec fn leaf_text(&self, k: int) -> Seq<char> {
        self.nodes@[self.rec_nodes@[k] as int].path_regex->0@
    }

    /// The rules that the tree lists, each with the text of the pattern for
    /// its path.
    pub open spec fn leaves(&self) -> Seq<(int, Seq<char>)> {
        Seq::new(self.rec_nodes@.len(), |k: int| (self.leaf_rule(k), self.leaf_text(k)))
    }

    /// The patterns that the first `upto` listed rules add to a list.
    pub open spec fn derived(&self, std: &DirStd, kind: Derived, upto: int) -> Seq<Seq<char>>
        decreases upto,
    {
        if upto <= 0 {
            Seq::empty()
        } else {
            let before = self.derived(std, kind, upto - 1);
            let rule = &std.records@[self.leaf_rule(upto - 1)];
            if selects(kind, rule) {
                before.push(shaped(kind, rule.directory, self.leaf_text(upto - 1)))
            } else {
                before
            }
        }
    }

    /// Whether the `regex` crate takes the pattern that the `k`-th listed
    /// rule adds to the list, where that rule is about a directory.
    pub open spec fn leaf_shape_compiles(&self, std: &DirStd, kind: Derived, k: int) -> bool {
        let r = self.leaf_rule(k);
        selects(kind, &std.records@[r]) && std.records@[r].directory ==> pattern_compiles(
            rule_shape(std.records@, kind, r),
            true,
        )
    }

    /// The texts of a pattern list of the standard. The list of module roots
    /// holds no text twice.
    pub open spec fn derived_list(&self, std: &DirStd, kind: Derived) -> Seq<Seq<char>> {
        let all = self.derived(std, kind, self.rec_nodes@.len() as int);
        if kind == Derived::Module {
            distinct(all)
        } else {
            all
        }
    }
}

/// Whether one of the patterns is of the wanted text.
pub fn holds_pattern(list: &Vec<RegexEq>, wanted: &str) -> (found: bool)
    ensures
        found == patterns_of(list@).contains(wanted@),
{
    let mut i: usize = 0;
    while i < list.len()
        invariant
            i <= list.len(),
            forall|j: int| 0 <= j < i ==> list@[j]@ != wanted@,
        decreases list.len() - i,
    {
        if same_text(list[i].as_str(), wanted) {
            assert(patterns_of(list@)[i as int] == wanted@);
            return true;
        }
        i = i + 1;
    }
    false
}

/// Makes the text of the pattern that the rule of a directory adds to a list.
pub fn shape(kind: Derived, pattern: &str) -> (text: String)
    requires
        pattern@.len() > 0,
    ensures
        text@ == shaped(kind, true, pattern@),
{
    let n = pattern.unicode_len();
    let head = pattern.substring_char(0, n - 1);
    let last = pattern.get_char(n - 1);
    let mut text = head.to_owned();
    assert(text@ == pattern@.drop_last());
    match kind {
        Derived::Module => {
            push_char(&mut text, SEPARATOR);
        },
        _ => {
            text.append("/.*");
            push_char(&mut text, last);
            assert(text@ == pattern@.drop_last() + "/.*"@ + seq![pattern@.last()]);
        },
    }
    text
}

/// Takes a compiled pattern into a list; where the pattern did not compile,
/// the rule that it was made for is reported and the list left as it is.
pub fn take_in(list: &mut Vec<RegexEq>, record: usize, compiled: Option<RegexEq>) -> (r: Result<
    (),
    BuildError,
>)
    ensures
        match compiled {
            Some(pattern) => r is Ok && final(list)@ == old(list)@.push(pattern),
            None => r == Err::<(), BuildError>(BuildError::MalformedPattern { record })
                && final(list)@ == old(list)@,
        },
{
    match compiled {
        Some(pattern) => {
            list.push(pattern);
            Ok(())
        },
        None => Err(BuildError::MalformedPattern { record }),
    }
}

/// Makes one of the pattern lists of a standard from its tree. It fails
/// exactly where the `regex` crate does not take the pattern that the rule
/// of a directory adds; that rule is reported.
pub fn derive_patterns(tree: &Tree, std: &DirStd, kind: Derived) -> (r: Result<
    Vec<RegexEq>,
    BuildError,
>)
    requires
        tree.represents(std),
    ensures
        r is Ok <==> shapes_compile(std.records@, kind),
        match r {
            Ok(list) => patterns_of(list@) == tree.derived_list(std, kind) && all_fold(list@),
            Err(error) => error matches BuildError::MalformedPattern { record } && record
                < std.records@.len() && selects(kind, &std.records@[record as int])
                && std.records@[record as int].directory && !pattern_compiles(
                rule_shape(std.records@, kind, record as int),
                true,
            ),
        },
{
    let mut list: Vec<RegexEq> = Vec::new();
    let mut k: usize = 0;
    while k < tree.rec_nodes.len()
        invariant
            k <= tree.rec_nodes@.len(),
            tree.represents(std),
            all_fold(list@),
            forall|i: int| 0 <= i < list@.len() ==> pattern_compiles((#[trigger] list@[i])@, true),
            forall|j: int| 0 <= j < k ==> #[trigger] tree.leaf_shape_compiles(std, kind, j),
            patterns_of(list@) == (if kind == Derived::Module {
                distinct(tree.derived(std, kind, k as int))
            } else {
                tree.derived(std, kind, k as int)
            }),
        decreases tree.rec_nodes@.len() - k,
    {
        assert(tree.leaf_placed(std, k as int));
        assert(tree.leaf_compiled(std, k as int));
        proof {
            tree.lemma_pattern_by_rules(std, k as int);
        }
        let node = &tree.nodes[tree.rec_nodes[k]];
        let ghost before = patterns_of(list@);
        let ghost sofar = tree.derived(std, kind, k as int);
        match (&node.value, &node.path_regex) {
            (Some(v), Some(pattern)) => {
                let rule = &std.records[*v];
                let selected = match kind {
                    Derived::Module => rule.module,
                    Derived::Arbitrary => match rule.arbitrary_content {
                        Some(flag) => flag,
                        None => false,
                    },
                    Derived::Generated => rule.generated,
                };
                assert(selected == selects(kind, rule));
                if selected {
                    proof {
                        lemma_anchored_ends(tree.chain(std, tree.rec_nodes@[k as int] as int));
                    }
                    let ghost text = shaped(kind, rule.directory, pattern@);
                    assert(text == rule_shape(std.records@, kind, *v as int));
                    assert(tree.derived(std, kind, k + 1) == sofar.push(text));
                    assert(sofar.push(text).drop_last() == sofar);
                    if rule.directory {
                        let shaped_text = shape(kind, pattern.as_str());
                        let known = match kind {
                            Derived::Module => holds_pattern(&list, shaped_text.as_str()),
                            _ => false,
                        };
                        if !known {
                            let compiled = RegexEq::parse_ignoring_case(shaped_text.as_str());
                            match take_in(&mut list, *v, compiled) {
                                Ok(()) => {
                                    assert(patterns_of(list@) == before.push(text));
                                },
                                Err(error) => {
                                    assert(!shapes_compile(std.records@, kind));
                                    return Err(error);
                                },
                            }
                        } else {
                            proof {
                                let i = choose|i: int| 0 <= i < before.len() && before[i] == text;
                                assert(list@[i]@ == text);
                            }
                        }
                    } else {
                        let known = match kind {
                            Derived::Module => holds_pattern(&list, pattern.as_str()),
                            _ => false,
                        };
                        if !known {
                            list.push(pattern.duplicate());
                            assert(patterns_of(list@) == before.push(text));
                        }
                    }
                } else {
                    assert(tree.derived(std, kind, k + 1) == sofar);
                }
                assert(tree.leaf_shape_compiles(std, kind, k as int));
            },
            _ => {
                assert(false);
            },
        }
        k = k + 1;
    }
    proof {
        assert forall|r: int|
            0 <= r < std.records@.len() && selects(kind, &std.records@[r])
                && std.records@[r].directory implies pattern_compiles(
            #[trigger] rule_shape(std.records@, kind, r),
            true,
        ) by {
            assert(lists(tree.placed(), r));
            let j = choose|j: int| 0 <= j < tree.placed().len() && #[trigger] tree.placed()[j] == r;
            assert(tree.leaf_placed(std, j));
            assert(tree.leaf_shape_compiles(std, kind, j));
        }
    }
    Ok(list)
}

/// The patterns for the roots of modules, one for every rule flagged as a
/// module, none twice. The rule of a directory gives the pattern that matches
/// the directory as the beginning of a path.
pub fn create_module_rgxs(tree: &Tree, std: &DirStd) -> (r: Result<Vec<RegexEq>, BuildError>)
    requires
        tree.represents(std),
    ensures
        r is Ok <==> shapes_compile(std.records@, Derived::Module),
        match r {
            Ok(list) => patterns_of(list@) == tree.derived_list(std, Derived::Module) && all_fold(
                list@,
            ),
            Err(error) => error matches BuildError::MalformedPattern { record } && record
                < std.records@.len() && selects(Derived::Module, &std.records@[record as int])
                && std.records@[record as int].directory && !pattern_compiles(
                rule_shape(std.records@, Derived::Module, record as int),
                true,
            ),
        },
{
    derive_patterns(tree, std, Derived::Module)
}

/// The patterns for areas of arbitrary content, one for every rule whose
/// flag for it is set to true. The rule of a directory gives the pattern that
/// matches everything below the directory.
pub fn create_arbitrary_content_rgxs(tree: &Tree, std: &DirStd) -> (r: Result<
    Vec<RegexEq>,
    BuildError,
>)
    requires
        tree.represents(std),
    ensures
        r is Ok <==> shapes_compile(std.records@, Derived::Arbitrary),
        match r {
            Ok(list) => patterns_of(list@) == tree.derived_list(std, Derived::Arbitrary) && all_fold(
                list@,
            ),
            Err(error) => error matches BuildError::MalformedPattern { record } && record
                < std.records@.len() && selects(Derived::Arbitrary, &std.records@[record as int])
                && std.records@[record as int].directory && !pattern_compiles(
                rule_shape(std.records@, Derived::Arbitrary, record as int),
                true,
            ),
        },
{
    derive_patterns(tree, std, Derived::Arbitrary)
}

/// The patterns for areas of generated content, one for every rule flagged as
/// generated. The rule of a directory gives the pattern that matches
/// everything below the directory.
pub fn create_generated_content_rgxs(tree: &Tree, std: &DirStd) -> (r: Result<
    Vec<RegexEq>,
    BuildError,
>)
    requires
        tree.represents(std),
    ensures
        r is Ok <==> shapes_compile(std.records@, Derived::Generated),
        match r {
            Ok(list) => patterns_of(list@) == tree.derived_list(std, Derived::Generated) && all_fold(
                list@,
            ),
            Err(error) => error matches BuildError::MalformedPattern { record } && record
                < std.records@.len() && selects(Derived::Generated, &std.records@[record as int])
                && std.records@[record as int].directory && !pattern_compiles(
                rule_shape(std.records@, Derived::Generated, record as int),
                true,
            ),
        },
{
    derive_patterns(tree, std, Derived::Generated)
}

/// Whether the standard can be made ready: no rule has a flaw, no two rules
/// name the same place, and the `regex` crate takes the pattern of every
/// rule and every pattern that a rule adds to one of the three lists.
pub open spec fn preparable(std: &DirStd) -> bool {
    &&& first_flaw(std.records@) is None
    &&& distinct_places(std.records@)
    &&& patterns_compile(std.records@)
    &&& shapes_compile(std.records@, Derived::Module)
    &&& shapes_compile(std.records@, Derived::Arbitrary)
    &&& shapes_compile(std.records@, Derived::Generated)
}

/// Whether the `regex` crate does not take the pattern of the rule, or the
/// pattern that the rule, being about a directory, adds to a list.
pub open spec fn makes_bad_pattern(rules: Seq<Rec>, record: int) -> bool {
    ||| !pattern_compiles(rule_pattern(rules, record), true)
    ||| rules[record].directory && {
        ||| selects(Derived::Module, &rules[record]) && !pattern_compiles(
            rule_shape(rules, Derived::Module, record),
            true,
        )
        ||| selects(Derived::Arbitrary, &rules[record]) && !pattern_compiles(
            rule_shape(rules, Derived::Arbitrary, record),
            true,
        )
        ||| selects(Derived::Generated, &rules[record]) && !pattern_compiles(
            rule_shape(rules, Derived::Generated, record),
            true,
        )
    }
}

/// Whether the error is one that the standard is refused with: the flaw of
/// the first rule that has one; or, where no rule has a flaw, a rule whose
/// place another rule takes too; or, where every rule has a place of its
/// own, a rule for which a pattern was made that the `regex` crate does not
/// take.
pub open spec fn refuses(std: &DirStd, error: BuildError) -> bool {
    match first_flaw(std.records@) {
        Some(flaw) => error == flaw,
        None => match error {
            BuildError::DuplicatePath { record } => record < std.records@.len()
                && !distinct_places(std.records@),
            BuildError::MalformedPattern { record } => record < std.records@.len()
                && distinct_places(std.records@) && makes_bad_pattern(
                std.records@,
                record as int,
            ),
            _ => false,
        },
    }
}

/// A standard made ready for checking paths against it.
#[derive(Debug)]
pub struct Rules<'a> {
    /// The standard.
    pub std: &'a DirStd,
    /// The tree of its rules.
    pub tree: Tree,
    /// The patterns for the roots of modules.
    pub module_rgxs: Vec<RegexEq>,
    /// The patterns for areas of arbitrary content.
    pub arbitrary_content_rgxs: Vec<RegexEq>,
    /// The patterns for areas of generated content.
    pub generated_content_rgxs: Vec<RegexEq>,
}

/// What checking a path rests on: the number of rules, for every listed rule
/// the text of the pattern for its path, and the texts of the three pattern
/// lists.
pub struct RulesView {
    pub records: nat,
    pub leaves: Seq<(int, Seq<char>)>,
    pub modules: Seq<Seq<char>>,
    pub arbitrary: Seq<Seq<char>>,
    pub generated: Seq<Seq<char>>,
}

impl<'a> View for Rules<'a> {
    type V = RulesView;

    open spec fn view(&self) -> RulesView {
        RulesView {
            records: self.std.records@.len(),
            leaves: self.tree.leaves(),
            modules: patterns_of(self.module_rgxs@),
            arbitrary: patterns_of(self.arbitrary_content_rgxs@),
            generated: patterns_of(self.generated_content_rgxs@),
        }
    }
}

impl<'a> Rules<'a> {
    /// Whether the tree is that of the standard, and the pattern lists are
    /// those that follow from it.
    pub open spec fn wf(&self) -> bool {
        &&& self.tree.represents(self.std)
        &&& all_fold(self.module_rgxs@)
        &&& all_fold(self.arbitrary_content_rgxs@)
        &&& all_fold(self.generated_content_rgxs@)
        &&& patterns_of(self.module_rgxs@) == self.tree.derived_list(self.std, Derived::Module)
        &&& patterns_of(self.arbitrary_content_rgxs@) == self.tree.derived_list(
            self.std,
            Derived::Arbitrary,
        )
        &&& patterns_of(self.generated_content_rgxs@) == self.tree.derived_list(
            self.std,
            Derived::Generated,
        )
    }

    /// Makes a standard ready for checking, or says what is wrong with it.
    ///
    /// The first rule with a flaw of its own is reported; else a rule whose
    /// place in the tree is taken; else, where the `regex` crate does not
    /// take one of the patterns, a rule that the pattern was made for.
    pub fn prepare(std: &'a DirStd) -> (r: Result<Rules<'a>, BuildError>)
        ensures
            r is Ok <==> preparable(std),
            match r {
                Ok(rules) => rules.wf() && rules.std == std,
                Err(error) => refuses(std, error),
            },
    {
        let tree = match create(std) {
            Ok(tree) => tree,
            Err(error) => {
                return Err(error);
            },
        };
        let module_rgxs = match create_module_rgxs(&tree, std) {
            Ok(list) => list,
            Err(error) => {
                return Err(error);
            },
        };
        let arbitrary_content_rgxs = match create_arbitrary_content_rgxs(&tree, std) {
            Ok(list) => list,
            Err(error) => {
                return Err(error);
            },
        };
        let generated_content_rgxs = match create_generated_content_rgxs(&tree, std) {
            Ok(list) => list,
            Err(error) => {
                return Err(error);
            },
        };
        Ok(Rules { std, tree, module_rgxs, arbitrary_content_rgxs, generated_content_rgxs })
    }
}

} // verus!
