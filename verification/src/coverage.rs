//! The coverage of a listing by a standard: which paths the rules account
//! for, which are ignored, which lie in modules, and which nothing accounts
//! for.

use crate::checker::Checker;
use crate::classify::{any_match, classify, lemma_module_rest_shorter, rule_matches, Class};
use crate::data::{std_index, Catalog};
use crate::evaluation::{best_fit, factors_of, is_best, is_fit, lemma_best_is_fit, rate_listing,
    BestFitError};
use crate::format::DirStd;
use crate::pattern::{PatternView, RegexEq};
use crate::rules::{Rules, RulesView};
use crate::stds::Standards;
use crate::text::{match_text, texts};
use vstd::prelude::*;
use vstd::std_specs::convert::FromSpecImpl;

verus! {

/// The coverage of a listing by a standard: what a checker has gathered,
/// as plain sequences of paths.
pub struct CoverageView {
    /// The number of paths that count: neither ignored nor handed to a module.
    pub num_paths: nat,
    /// For every rule of the standard the paths that its pattern matched.
    pub matched: Seq<Seq<Seq<char>>>,
    /// The paths that the pattern of paths to ignore matched.
    pub ignored: Seq<Seq<char>>,
    /// The paths that no rule matched, in an area of arbitrary content.
    pub arbitrary_content: Seq<Seq<char>>,
    /// The paths in an area of generated content.
    pub generated_content: Seq<Seq<char>>,
    /// The paths that count and that nothing accounts for.
    pub out: Seq<Seq<char>>,
    /// The modules, each with the coverage of the paths below its root, in
    /// the order in which the modules were first met.
    pub modules: Seq<(Seq<char>, CoverageView)>,
}

/// The buckets of the rules with the path added to the bucket of every rule
/// in `records`, as often as it is named there.
pub open spec fn add_matches(
    matched: Seq<Seq<Seq<char>>>,
    records: Seq<int>,
    path: Seq<char>,
) -> Seq<Seq<Seq<char>>>
    decreases records.len(),
{
    if records.len() == 0 {
        matched
    } else {
        let before = add_matches(matched, records.drop_last(), path);
        let r = records.last();
        if 0 <= r < before.len() {
            before.update(r, before[r].push(path))
        } else {
            before
        }
    }
}

/// The index of the first module of that root.
pub open spec fn module_index(modules: Seq<(Seq<char>, CoverageView)>, key: Seq<char>) -> Option<
    int,
>
    decreases modules.len(),
{
    if modules.len() == 0 {
        None
    } else {
        match module_index(modules.drop_last(), key) {
            Some(i) => Some(i),
            None => if modules.last().0 == key {
                Some(modules.len() - 1)
            } else {
                None
            },
        }
    }
}

/// The index that `module_index` finds is that of a module of the wanted
/// root, and no module before it has that root.
pub proof fn lemma_module_index(modules: Seq<(Seq<char>, CoverageView)>, key: Seq<char>)
    ensures
        match module_index(modules, key) {
            Some(i) => 0 <= i < modules.len() && modules[i].0 == key && forall|j: int|
                0 <= j < i ==> (#[trigger] modules[j]).0 != key,
            None => forall|j: int| 0 <= j < modules.len() ==> (#[trigger] modules[j]).0 != key,
        },
    decreases modules.len(),
{
    if modules.len() > 0 {
        let before = modules.drop_last();
        lemma_module_index(before, key);
        assert forall|j: int| 0 <= j < before.len() implies before[j] == modules[j] by {}
        match module_index(before, key) {
            Some(i) => {
                assert forall|j: int| 0 <= j < i implies (#[trigger] modules[j]).0 != key by {
                    assert(before[j] == modules[j]);
                }
            },
            None => {
                assert forall|j: int| 0 <= j < before.len() implies (#[trigger] modules[j]).0
                    != key by {
                    assert(before[j] == modules[j]);
                }
            },
        }
    }
}

impl CoverageView {
    /// The coverage before any path: a bucket for each rule, all empty.
    pub open spec fn empty(records: nat) -> CoverageView {
        CoverageView {
            num_paths: 0,
            matched: Seq::new(records, |i: int| Seq::empty()),
            ignored: Seq::empty(),
            arbitrary_content: Seq::empty(),
            generated_content: Seq::empty(),
            out: Seq::empty(),
            modules: Seq::empty(),
        }
    }

    /// The coverage with one more path that counts.
    pub open spec fn with_viable(
        self,
        records: Seq<int>,
        arbitrary: bool,
        generated: bool,
        path: Seq<char>,
    ) -> CoverageView {
        CoverageView {
            num_paths: self.num_paths + 1,
            matched: add_matches(self.matched, records, path),
            arbitrary_content: if arbitrary {
                self.arbitrary_content.push(path)
            } else {
                self.arbitrary_content
            },
            generated_content: if generated {
                self.generated_content.push(path)
            } else {
                self.generated_content
            },
            out: if records.len() == 0 && !arbitrary && !generated {
                self.out.push(path)
            } else {
                self.out
            },
            ..self
        }
    }

    /// The coverage after one more path. A path in a module goes, without
    /// the root of the module, to the coverage of the module, which is made
    /// where the root is met for the first time; nothing else changes then.
    pub open spec fn covered(
        self,
        rules: RulesView,
        ignore: PatternView,
        path: Seq<char>,
    ) -> CoverageView
        decreases path.len(),
        via Self::covered_ends
    {
        match classify(rules, ignore, path) {
            Class::Module { key, rest } => match module_index(self.modules, key) {
                Some(i) => CoverageView {
                    modules: self.modules.update(
                        i,
                        (key, self.modules[i].1.covered(rules, ignore, rest)),
                    ),
                    ..self
                },
                None => CoverageView {
                    modules: self.modules.push(
                        (key, CoverageView::empty(rules.records).covered(rules, ignore, rest)),
                    ),
                    ..self
                },
            },
            Class::Ignored => CoverageView { ignored: self.ignored.push(path), ..self },
            Class::Viable { records, arbitrary, generated } => self.with_viable(
                records,
                arbitrary,
                generated,
                path,
            ),
        }
    }

    /// Handing a path on to a module ends: the path gets shorter each time.
    #[via_fn]
    proof fn covered_ends(self, rules: RulesView, ignore: PatternView, path: Seq<char>) {
        lemma_module_rest_shorter(rules, ignore, path);
    }

    /// The coverage after the paths of a listing, one after the other.
    pub open spec fn covered_all(
        self,
        rules: RulesView,
        ignore: PatternView,
        paths: Seq<Seq<char>>,
    ) -> CoverageView
        decreases paths.len(),
    {
        if paths.len() == 0 {
            self
        } else {
            self.covered_all(rules, ignore, paths.drop_last()).covered(rules, ignore, paths.last())
        }
    }

    /// The number of paths that count, here and in all modules below.
    pub open spec fn total_paths(self) -> nat
        decreases self,
    {
        self.num_paths + Self::total_of(self.modules)
    }

    /// The number of paths that count in the modules and all modules below.
    pub open spec fn total_of(modules: Seq<(Seq<char>, CoverageView)>) -> nat
        decreases modules,
    {
        if modules.len() == 0 {
            0
        } else {
            Self::total_of(modules.drop_last()) + modules.last().1.total_paths()
        }
    }

    /// One module counts no more paths than all together.
    pub proof fn lemma_total_of_bounds(modules: Seq<(Seq<char>, CoverageView)>, i: int)
        requires
            0 <= i < modules.len(),
        ensures
            modules[i].1.total_paths() <= Self::total_of(modules),
        decreases modules.len(),
    {
        if i < modules.len() - 1 {
            Self::lemma_total_of_bounds(modules.drop_last(), i);
        }
    }

    /// Replacing one module changes the count by what that module gains.
    pub proof fn lemma_total_of_update(
        modules: Seq<(Seq<char>, CoverageView)>,
        i: int,
        module: (Seq<char>, CoverageView),
    )
        requires
            0 <= i < modules.len(),
        ensures
            Self::total_of(modules.update(i, module)) + modules[i].1.total_paths()
                == Self::total_of(modules) + module.1.total_paths(),
        decreases modules.len(),
    {
        let now = modules.update(i, module);
        if i < modules.len() - 1 {
            assert(now.drop_last() == modules.drop_last().update(i, module));
            Self::lemma_total_of_update(modules.drop_last(), i, module);
        } else {
            assert(now.drop_last() == modules.drop_last());
        }
    }

    /// Whether the count that the path would raise can be raised: it is below
    /// the greatest number that the machine counts to. A path that is
    /// ignored raises no count, and a path in a module raises a count of
    /// that module.
    pub open spec fn has_room(self, rules: RulesView, ignore: PatternView, path: Seq<char>) -> bool
        decreases path.len(),
        via Self::has_room_ends
    {
        match classify(rules, ignore, path) {
            Class::Module { key, rest } => match module_index(self.modules, key) {
                Some(i) => self.modules[i].1.has_room(rules, ignore, rest),
                None => true,
            },
            Class::Ignored => true,
            Class::Viable { .. } => self.num_paths < usize::MAX,
        }
    }

    /// Following a path into the modules ends: the path gets shorter each
    /// time.
    #[via_fn]
    proof fn has_room_ends(self, rules: RulesView, ignore: PatternView, path: Seq<char>) {
        lemma_module_rest_shorter(rules, ignore, path);
    }

    /// Where fewer paths count than the machine counts to, every path has
    /// room.
    pub proof fn lemma_room(self, rules: RulesView, ignore: PatternView, path: Seq<char>)
        requires
            self.total_paths() < usize::MAX,
        ensures
            self.has_room(rules, ignore, path),
        decreases path.len(),
    {
        lemma_module_rest_shorter(rules, ignore, path);
        match classify(rules, ignore, path) {
            Class::Module { key, rest } => {
                match module_index(self.modules, key) {
                    Some(i) => {
                        lemma_module_index(self.modules, key);
                        Self::lemma_total_of_bounds(self.modules, i);
                        self.modules[i].1.lemma_room(rules, ignore, rest);
                    },
                    None => {},
                }
            },
            Class::Ignored => {},
            Class::Viable { records, arbitrary, generated } => {},
        }
    }

    /// The number of paths taken in, here and in all modules below: those
    /// that count and those that are ignored.
    pub open spec fn taken(self) -> nat
        decreases self,
    {
        self.num_paths + self.ignored.len() + Self::taken_of(self.modules)
    }

    /// The number of paths taken in by the modules and all modules below.
    pub open spec fn taken_of(modules: Seq<(Seq<char>, CoverageView)>) -> nat
        decreases modules,
    {
        if modules.len() == 0 {
            0
        } else {
            Self::taken_of(modules.drop_last()) + modules.last().1.taken()
        }
    }

    /// Replacing one module changes the number of paths taken in by what
    /// that module gains.
    pub proof fn lemma_taken_of_update(
        modules: Seq<(Seq<char>, CoverageView)>,
        i: int,
        module: (Seq<char>, CoverageView),
    )
        requires
            0 <= i < modules.len(),
        ensures
            Self::taken_of(modules.update(i, module)) + modules[i].1.taken() == Self::taken_of(
                modules,
            ) + module.1.taken(),
        decreases modules.len(),
    {
        let now = modules.update(i, module);
        if i < modules.len() - 1 {
            assert(now.drop_last() == modules.drop_last().update(i, module));
            Self::lemma_taken_of_update(modules.drop_last(), i, module);
        } else {
            assert(now.drop_last() == modules.drop_last());
        }
    }

    /// Every path is taken in exactly once: it counts or is ignored, at this
    /// level or in the module that it is handed on to.
    pub proof fn lemma_every_path_taken(self, rules: RulesView, ignore: PatternView, path: Seq<char>)
        ensures
            self.covered(rules, ignore, path).taken() == self.taken() + 1,
        decreases path.len(),
    {
        lemma_module_rest_shorter(rules, ignore, path);
        match classify(rules, ignore, path) {
            Class::Module { key, rest } => {
                match module_index(self.modules, key) {
                    Some(i) => {
                        lemma_module_index(self.modules, key);
                        let child = self.modules[i].1;
                        child.lemma_every_path_taken(rules, ignore, rest);
                        Self::lemma_taken_of_update(
                            self.modules,
                            i,
                            (key, child.covered(rules, ignore, rest)),
                        );
                    },
                    None => {
                        let child = CoverageView::empty(rules.records);
                        child.lemma_every_path_taken(rules, ignore, rest);
                        let grown = child.covered(rules, ignore, rest);
                        assert(self.modules.push((key, grown)).drop_last() == self.modules);
                        assert(Self::taken_of(child.modules) == 0);
                    },
                }
            },
            Class::Ignored => {},
            Class::Viable { records, arbitrary, generated } => {},
        }
    }

    /// One more path adds at most one to the count.
    pub proof fn lemma_covered_total(self, rules: RulesView, ignore: PatternView, path: Seq<char>)
        ensures
            self.total_paths() <= self.covered(rules, ignore, path).total_paths()
                <= self.total_paths() + 1,
        decreases path.len(),
    {
        lemma_module_rest_shorter(rules, ignore, path);
        match classify(rules, ignore, path) {
            Class::Module { key, rest } => {
                match module_index(self.modules, key) {
                    Some(i) => {
                        lemma_module_index(self.modules, key);
                        let child = self.modules[i].1;
                        child.lemma_covered_total(rules, ignore, rest);
                        Self::lemma_total_of_update(
                            self.modules,
                            i,
                            (key, child.covered(rules, ignore, rest)),
                        );
                    },
                    None => {
                        let child = CoverageView::empty(rules.records);
                        child.lemma_covered_total(rules, ignore, rest);
                        let grown = child.covered(rules, ignore, rest);
                        assert(self.modules.push((key, grown)).drop_last() == self.modules);
                        assert(Self::total_of(child.modules) == 0);
                    },
                }
            },
            Class::Ignored => {},
            Class::Viable { records, arbitrary, generated } => {},
        }
    }
}

/// The buckets of the rules as sequences of paths.
pub open spec fn buckets(matched: Seq<Vec<String>>) -> Seq<Seq<Seq<char>>> {
    Seq::new(matched.len(), |i: int| texts(matched[i]@))
}

/// Which paths of a listing are covered by which rules of a standard.
#[derive(Debug)]
pub struct Coverage<'a> {
    /// The standard that the listing was checked against.
    pub std: &'a DirStd,
    /// The number of paths that count: the paths of the listing without the
    /// ignored ones and without those in modules.
    pub num_paths: usize,
    /// For every rule of the standard, by its index, the paths that the
    /// pattern of the rule matched.
    pub matched: Vec<Vec<String>>,
    /// The paths that were ignored.
    pub ignored: Vec<String>,
    /// The paths that no rule matched, in an area of arbitrary content.
    pub arbitrary_content: Vec<String>,
    /// The paths in an area of generated content.
    pub generated_content: Vec<String>,
    /// The paths that count and that nothing accounts for.
    pub out: Vec<String>,
    /// The modules met in the listing, each under its root directory, with
    /// the coverage of the paths below that root.
    pub modules: Vec<(String, Coverage<'a>)>,
}

impl<'a> Coverage<'a> {
    /// The coverage as plain sequences of paths.
    pub open spec fn model(&self) -> CoverageView
        decreases self,
    {
        CoverageView {
            num_paths: self.num_paths as nat,
            matched: buckets(self.matched@),
            ignored: texts(self.ignored@),
            arbitrary_content: texts(self.arbitrary_content@),
            generated_content: texts(self.generated_content@),
            out: texts(self.out@),
            modules: Self::models(self.modules@),
        }
    }

    /// The modules as plain sequences of paths.
    pub open spec fn models(modules: Seq<(String, Coverage<'a>)>) -> Seq<(Seq<char>, CoverageView)>
        decreases modules,
    {
        if modules.len() == 0 {
            Seq::empty()
        } else {
            Self::models(modules.drop_last()).push((modules.last().0@, modules.last().1.model()))
        }
    }

    /// Whether there is a bucket for every rule of the standard, here and in
    /// every module, and all modules are of the same standard.
    pub open spec fn wf(&self) -> bool
        decreases self,
    {
        &&& self.matched@.len() == self.std.records@.len()
        &&& forall|i: int|
            0 <= i < self.modules@.len() ==> (#[trigger] self.modules@[i]).1.wf()
                && self.modules@[i].1.std == self.std
    }

    /// The models of the modules, one by one.
    pub proof fn lemma_models(modules: Seq<(String, Coverage<'a>)>)
        ensures
            Self::models(modules).len() == modules.len(),
            forall|i: int|
                0 <= i < modules.len() ==> #[trigger] Self::models(modules)[i] == (
                    modules[i].0@,
                    modules[i].1.model(),
                ),
        decreases modules.len(),
    {
        if modules.len() > 0 {
            Self::lemma_models(modules.drop_last());
        }
    }

    /// A coverage without any path, with an empty bucket for every rule.
    pub fn new(std: &'a DirStd) -> (coverage: Coverage<'a>)
        ensures
            coverage.wf(),
            coverage.std == std,
            coverage.modules@.len() == 0,
            coverage@ == CoverageView::empty(std.records@.len()),
    {
        let mut matched: Vec<Vec<String>> = Vec::new();
        let mut i: usize = 0;
        while i < std.records.len()
            invariant
                i <= std.records.len(),
                matched@.len() == i,
                forall|j: int| 0 <= j < i ==> (#[trigger] matched@[j])@.len() == 0,
            decreases std.records.len() - i,
        {
            matched.push(Vec::new());
            i = i + 1;
        }
        let coverage = Coverage {
            std,
            num_paths: 0,
            matched,
            ignored: Vec::new(),
            arbitrary_content: Vec::new(),
            generated_content: Vec::new(),
            out: Vec::new(),
            modules: Vec::new(),
        };
        assert forall|j: int| 0 <= j < matched@.len() implies texts(
            (#[trigger] coverage.matched@[j])@,
        ) == Seq::<Seq<char>>::empty() by {
            assert(texts(coverage.matched@[j]@) =~= Seq::<Seq<char>>::empty());
        }
        assert(coverage@.matched =~= CoverageView::empty(std.records@.len()).matched);
        assert(coverage@.ignored =~= Seq::empty());
        assert(coverage@.arbitrary_content =~= Seq::empty());
        assert(coverage@.generated_content =~= Seq::empty());
        assert(coverage@.out =~= Seq::empty());
        coverage
    }
}

impl<'a> View for Coverage<'a> {
    type V = CoverageView;

    open spec fn view(&self) -> CoverageView {
        self.model()
    }
}

/// The coverage of a whole listing by a standard.
pub open spec fn covering(
    rules: RulesView,
    ignore: PatternView,
    paths: Seq<Seq<char>>,
) -> CoverageView {
    CoverageView::empty(rules.records).covered_all(rules, ignore, paths)
}

/// The counts of a finished check add up: every path of the listing counts
/// or is ignored, at the first level or in a module.
pub proof fn lemma_all_paths_taken(rules: RulesView, ignore: PatternView, paths: Seq<Seq<char>>)
    ensures
        covering(rules, ignore, paths).taken() == paths.len(),
    decreases paths.len(),
{
    if paths.len() == 0 {
        assert(CoverageView::taken_of(CoverageView::empty(rules.records).modules) == 0);
    } else {
        lemma_all_paths_taken(rules, ignore, paths.drop_last());
        covering(rules, ignore, paths.drop_last()).lemma_every_path_taken(
            rules,
            ignore,
            paths.last(),
        );
    }
}

/// A listing counts no more paths than it has.
pub proof fn lemma_covering_total(rules: RulesView, ignore: PatternView, paths: Seq<Seq<char>>)
    ensures
        covering(rules, ignore, paths).total_paths() <= paths.len(),
    decreases paths.len(),
{
    if paths.len() == 0 {
        assert(CoverageView::total_of(CoverageView::empty(rules.records).modules) == 0);
    } else {
        lemma_covering_total(rules, ignore, paths.drop_last());
        covering(rules, ignore, paths.drop_last()).lemma_covered_total(rules, ignore, paths.last());
    }
}

/// Feeds a whole listing to a checker that has seen no path yet, and ends
/// the check.
pub fn cover_paths<'a>(checker: Checker<'a>, dirs_and_files: &Vec<String>) -> (coverage: Coverage<
    'a,
>)
    requires
        checker.wf(),
        checker@ == CoverageView::empty(checker.rules@.records),
    ensures
        coverage.wf(),
        coverage.std == checker.rules.std,
        coverage@ == covering(checker.rules@, checker.ignored_paths.model(), texts(dirs_and_files@)),
        coverage@.total_paths() <= dirs_and_files@.len(),
        coverage@.taken() == dirs_and_files@.len(),
{
    let ghost rules = checker.rules@;
    let ghost ignore = checker.ignored_paths.model();
    let ghost start = checker;
    let ghost paths = texts(dirs_and_files@);
    let mut checker = checker;
    let mut i: usize = 0;
    while i < dirs_and_files.len()
        invariant
            i <= dirs_and_files@.len(),
            paths == texts(dirs_and_files@),
            checker.wf(),
            checker.rules == start.rules,
            checker.ignored_paths == start.ignored_paths,
            rules == start.rules@,
            ignore == start.ignored_paths.model(),
            checker@ == covering(rules, ignore, paths.take(i as int)),
        decreases dirs_and_files@.len() - i,
    {
        proof {
            lemma_covering_total(rules, ignore, paths.take(i as int));
            checker@.lemma_room(rules, ignore, dirs_and_files@[i as int]@);
            assert(paths.take(i + 1).drop_last() == paths.take(i as int));
            assert(paths.take(i + 1).last() == dirs_and_files@[i as int]@);
        }
        checker.cover(dirs_and_files[i].as_str());
        i = i + 1;
    }
    proof {
        assert(paths.take(paths.len() as int) == paths);
        lemma_covering_total(rules, ignore, paths);
        lemma_all_paths_taken(rules, ignore, paths);
    }
    checker.coverage()
}

/// Sorts the paths of a listing into the buckets of a coverage, for every
/// standard of the catalog, in the order of the catalog.
pub fn cover_listing<'a>(
    dirs_and_files: &Vec<String>,
    ignored_paths: &'a RegexEq,
    catalog: &'a Vec<Rules<'a>>,
) -> (coverages: Vec<Coverage<'a>>)
    requires
        forall|i: int| 0 <= i < catalog@.len() ==> (#[trigger] catalog@[i]).wf(),
    ensures
        coverages@.len() == catalog@.len(),
        forall|i: int|
            0 <= i < catalog@.len() ==> {
                &&& (#[trigger] coverages@[i]).wf()
                &&& coverages@[i].std == catalog@[i].std
                &&& coverages@[i]@ == covering(
                    catalog@[i]@,
                    ignored_paths.model(),
                    texts(dirs_and_files@),
                )
                &&& coverages@[i]@.total_paths() <= dirs_and_files@.len()
            },
{
    let checkers = Checker::new_all(catalog, ignored_paths);
    let mut coverages: Vec<Coverage<'a>> = Vec::new();
    for checker in it: checkers
        invariant
            it.seq().len() == catalog@.len(),
            forall|i: int|
                0 <= i < catalog@.len() ==> {
                    &&& (#[trigger] it.seq()[i]).wf()
                    &&& it.seq()[i].rules == &catalog@[i]
                    &&& it.seq()[i].ignored_paths == ignored_paths
                    &&& it.seq()[i]@ == CoverageView::empty(catalog@[i]@.records)
                },
            coverages@.len() == it.index(),
            forall|i: int|
                0 <= i < it.index() ==> {
                    &&& (#[trigger] coverages@[i]).wf()
                    &&& coverages@[i].std == catalog@[i].std
                    &&& coverages@[i]@ == covering(
                        catalog@[i]@,
                        ignored_paths.model(),
                        texts(dirs_and_files@),
                    )
                    &&& coverages@[i]@.total_paths() <= dirs_and_files@.len()
                },
    {
        assert(checker == it.seq()[it.index() as int]);
        coverages.push(cover_paths(checker, dirs_and_files));
    }
    coverages
}

/// Sorts the paths of a listing into the buckets of a coverage, for the
/// given standard.
pub fn cover_listing_with<'a>(
    dirs_and_files: &Vec<String>,
    ignored_paths: &'a RegexEq,
    std: &'a Rules<'a>,
) -> (coverage: Coverage<'a>)
    requires
        std.wf(),
    ensures
        coverage.wf(),
        coverage.std == std.std,
        coverage@ == covering(std@, ignored_paths.model(), texts(dirs_and_files@)),
        coverage@.total_paths() <= dirs_and_files@.len(),
        coverage@.taken() == dirs_and_files@.len(),
{
    cover_paths(Checker::new(std, ignored_paths), dirs_and_files)
}

/// Why the coverage of a listing could not be made.
#[derive(Debug, Clone, Copy, PartialEq, Eq, Structural)]
pub enum Error {
    /// No best fit was found.
    BestFitError(BestFitError),
}

impl From<BestFitError> for Error {
    fn from(error: BestFitError) -> (wrapped: Error) {
        Error::BestFitError(error)
    }
}

impl FromSpecImpl<BestFitError> for Error {
    open spec fn obeys_from_spec() -> bool {
        true
    }

    open spec fn from_spec(error: BestFitError) -> Error {
        Error::BestFitError(error)
    }
}

/// What the coverage of a listing by one standard must be.
pub open spec fn covers(
    coverage: &Coverage,
    rules: &Rules,
    ignore: PatternView,
    paths: Seq<Seq<char>>,
) -> bool {
    &&& coverage.wf()
    &&& coverage.std == rules.std
    &&& coverage@ == covering(rules@, ignore, paths)
}

/// Sorts the paths of a listing into the buckets of a coverage, for the
/// standards chosen: for the default standard, for the named one, for all,
/// or for all with only the coverage of the best fit kept. Fails only where
/// the best fit is asked for and the catalog is empty.
pub fn cover_listing_by_stds<'a>(
    dirs_and_files: &Vec<String>,
    ignored_paths: &'a RegexEq,
    catalog: &'a Catalog<'a>,
    stds: &Standards,
) -> (r: Result<Vec<Coverage<'a>>, Error>)
    requires
        catalog.wf(),
        stds matches Standards::Specific(name) ==> catalog.has(name@),
    ensures
        match *stds {
            Standards::Default => r matches Ok(coverages) && coverages@.len() == 1 && covers(
                &coverages@[0],
                &catalog.stds@[std_index(catalog.stds@, catalog.default_std_name@)->0],
                ignored_paths.model(),
                texts(dirs_and_files@),
            ),
            Standards::Specific(name) => r matches Ok(coverages) && coverages@.len() == 1
                && covers(
                &coverages@[0],
                &catalog.stds@[std_index(catalog.stds@, name@)->0],
                ignored_paths.model(),
                texts(dirs_and_files@),
            ),
            Standards::All => r matches Ok(coverages) && coverages@.len() == catalog.stds@.len()
                && forall|i: int|
                0 <= i < catalog.stds@.len() ==> covers(
                    &#[trigger] coverages@[i],
                    &catalog.stds@[i],
                    ignored_paths.model(),
                    texts(dirs_and_files@),
                ),
            Standards::BestFit => if catalog.stds@.len() == 0 {
                r == Err::<Vec<Coverage<'a>>, Error>(Error::BestFitError(BestFitError::NoneViable))
            } else {
                r matches Ok(coverages) && coverages@.len() == 1 && exists|k: int|
                    #![trigger catalog.stds@[k]]
                    is_fit(catalog, ignored_paths.model(), texts(dirs_and_files@), k) && covers(
                        &coverages@[0],
                        &catalog.stds@[k],
                        ignored_paths.model(),
                        texts(dirs_and_files@),
                    )
            },
        },
{
    let mut coverages: Vec<Coverage<'a>> = Vec::new();
    match stds {
        Standards::Default => {
            let index = match catalog.get(catalog.default_std_name.as_str()) {
                Some(index) => index,
                None => {
                    assert(false);
                    0
                },
            };
            coverages.push(cover_listing_with(dirs_and_files, ignored_paths, &catalog.stds[index]));
            Ok(coverages)
        },
        Standards::All => Ok(cover_listing(dirs_and_files, ignored_paths, &catalog.stds)),
        Standards::BestFit => {
            let all = rate_listing(dirs_and_files, ignored_paths, &catalog.stds);
            match best_fit(all) {
                Ok(best) => {
                    proof {
                        let k = choose|k: int|
                            is_best(factors_of(all@), k) && best == #[trigger] all@[k];
                        lemma_best_is_fit(
                            catalog,
                            ignored_paths.model(),
                            texts(dirs_and_files@),
                            all@,
                            k,
                        );
                    }
                    match best.coverage {
                        Some(coverage) => {
                            coverages.push(coverage);
                        },
                        None => {
                            assert(false);
                        },
                    }
                    Ok(coverages)
                },
                Err(error) => Err(Error::from(error)),
            }
        },
        Standards::Specific(std_name) => {
            let index = match catalog.get(std_name.as_str()) {
                Some(index) => index,
                None => {
                    assert(false);
                    0
                },
            };
            coverages.push(cover_listing_with(dirs_and_files, ignored_paths, &catalog.stds[index]));
            Ok(coverages)
        },
    }
}

/// The paths in the buckets of the rules flagged, bucket after bucket.
pub open spec fn flagged_paths(matched: Seq<Seq<Seq<char>>>, flags: Seq<bool>) -> Seq<Seq<char>>
    decreases matched.len(),
{
    if matched.len() == 0 {
        Seq::empty()
    } else {
        let before = flagged_paths(matched.drop_last(), flags);
        let i = matched.len() - 1;
        if i < flags.len() && flags[i] {
            before + matched.last()
        } else {
            before
        }
    }
}

impl<'a> Coverage<'a> {
    /// For every rule of the standard whether it is flagged as a module.
    pub open spec fn module_flags(&self) -> Seq<bool> {
        Seq::new(self.std.records@.len(), |i: int| self.std.records@[i].module)
    }

    /// The directories found to be modules: the paths that the rules flagged
    /// as modules matched, rule after rule.
    pub fn module_dirs(&self) -> (dirs: Vec<String>)
        requires
            self.wf(),
        ensures
            texts(dirs@) == flagged_paths(self@.matched, self.module_flags()),
    {
        let ghost matched = self@.matched;
        let ghost flags = self.module_flags();
        let mut dirs: Vec<String> = Vec::new();
        let mut i: usize = 0;
        while i < self.matched.len()
            invariant
                i <= self.matched@.len(),
                self.wf(),
                matched == self@.matched,
                flags == self.module_flags(),
                texts(dirs@) == flagged_paths(matched.take(i as int), flags),
            decreases self.matched@.len() - i,
        {
            let ghost before = texts(dirs@);
            assert(matched.take(i + 1).drop_last() == matched.take(i as int));
            assert(matched.take(i + 1).last() == texts(self.matched@[i as int]@));
            if self.std.records[i].module {
                let bucket = &self.matched[i];
                let mut j: usize = 0;
                while j < bucket.len()
                    invariant
                        j <= bucket@.len(),
                        texts(dirs@) == before + texts(bucket@).take(j as int),
                    decreases bucket@.len() - j,
                {
                    let ghost sofar = texts(dirs@);
                    dirs.push(bucket[j].clone());
                    assert(texts(dirs@) =~= sofar.push(bucket@[j as int]@));
                    assert(texts(bucket@).take(j + 1) =~= texts(bucket@).take(j as int).push(
                        bucket@[j as int]@,
                    ));
                    j = j + 1;
                }
                assert(texts(bucket@).take(bucket@.len() as int) == texts(bucket@));
            }
            i = i + 1;
        }
        assert(matched.take(matched.len() as int) == matched);
        dirs
    }
}

/// Every path of a listing meets exactly one of three fates: it is handed
/// to a module, or it is ignored, or it counts.
///
/// A path handed to a module leaves the buckets and the count of this level
/// as they are. An ignored path is added to the ignored ones and to nothing
/// else. A path that counts raises the count by one, touches neither the
/// ignored paths nor the modules, and lands among the paths that nothing
/// accounts for exactly where no pattern of a rule, of an area of arbitrary
/// content or of an area of generated content matches it.
pub proof fn lemma_one_fate(
    before: CoverageView,
    rules: RulesView,
    ignore: PatternView,
    path: Seq<char>,
)
    ensures
        ({
            let after = before.covered(rules, ignore, path);
            let text = match_text(path);
            match classify(rules, ignore, path) {
                Class::Module { key, rest } => {
                    &&& after.num_paths == before.num_paths
                    &&& after.matched == before.matched
                    &&& after.ignored == before.ignored
                    &&& after.arbitrary_content == before.arbitrary_content
                    &&& after.generated_content == before.generated_content
                    &&& after.out == before.out
                },
                Class::Ignored => {
                    &&& after.ignored == before.ignored.push(path)
                    &&& after.num_paths == before.num_paths
                    &&& after.matched == before.matched
                    &&& after.arbitrary_content == before.arbitrary_content
                    &&& after.generated_content == before.generated_content
                    &&& after.out == before.out
                    &&& after.modules == before.modules
                },
                Class::Viable { records, arbitrary, generated } => {
                    let unmatched = (forall|k: int|
                        0 <= k < rules.leaves.len() ==> !rule_matches(
                            (#[trigger] rules.leaves[k]).1,
                            text,
                        )) && !any_match(rules.arbitrary, text) && !any_match(
                        rules.generated,
                        text,
                    );
                    &&& after.num_paths == before.num_paths + 1
                    &&& after.ignored == before.ignored
                    &&& after.modules == before.modules
                    &&& unmatched ==> after.out == before.out.push(path)
                    &&& !unmatched ==> after.out == before.out
                },
            }
        }),
{
    crate::classify::lemma_matching_none(rules.leaves, match_text(path));
}

/// Whether a path that counts is listed as generated content rests on the
/// patterns of the areas of generated content alone: it is listed exactly
/// where one of them matches, whether or not a rule or an area of arbitrary
/// content matches it too.
pub proof fn lemma_generated_apart(
    before: CoverageView,
    rules: RulesView,
    ignore: PatternView,
    path: Seq<char>,
)
    requires
        classify(rules, ignore, path) is Viable,
    ensures
        ({
            let after = before.covered(rules, ignore, path);
            if any_match(rules.generated, match_text(path)) {
                after.generated_content == before.generated_content.push(path)
            } else {
                after.generated_content == before.generated_content
            }
        }),
{
}

/// How often the rule is named among the records.
pub open spec fn times_named(records: Seq<int>, rule: int) -> nat
    decreases records.len(),
{
    if records.len() == 0 {
        0
    } else {
        times_named(records.drop_last(), rule) + if records.last() == rule {
            1nat
        } else {
            0nat
        }
    }
}

/// The path, `times` times.
pub open spec fn repeated(path: Seq<char>, times: nat) -> Seq<Seq<char>> {
    Seq::new(times, |i: int| path)
}

/// Adding a path to the buckets of rules leaves the number of buckets as it
/// is, and adds the path to the end of each bucket as often as its rule is
/// named.
pub proof fn lemma_add_matches(
    matched: Seq<Seq<Seq<char>>>,
    records: Seq<int>,
    path: Seq<char>,
)
    ensures
        add_matches(matched, records, path).len() == matched.len(),
        forall|i: int|
            0 <= i < matched.len() ==> #[trigger] add_matches(matched, records, path)[i]
                == matched[i] + repeated(path, times_named(records, i)),
    decreases records.len(),
{
    if records.len() == 0 {
        assert forall|i: int| 0 <= i < matched.len() implies #[trigger] add_matches(
            matched,
            records,
            path,
        )[i] == matched[i] + repeated(path, times_named(records, i)) by {
            assert(matched[i] + repeated(path, 0) =~= matched[i]);
        }
    } else {
        let before = add_matches(matched, records.drop_last(), path);
        lemma_add_matches(matched, records.drop_last(), path);
        let r = records.last();
        assert forall|i: int| 0 <= i < matched.len() implies #[trigger] add_matches(
            matched,
            records,
            path,
        )[i] == matched[i] + repeated(path, times_named(records, i)) by {
            let n = times_named(records.drop_last(), i);
            assert(before[i] == matched[i] + repeated(path, n));
            if i == r {
                assert(repeated(path, n).push(path) =~= repeated(path, n + 1));
                assert((matched[i] + repeated(path, n)).push(path) =~= matched[i] + repeated(
                    path,
                    n + 1,
                ));
            }
        }
    }
}

/// The bucket, with the path at its end where it is to be added.
pub open spec fn with_path(bucket: Seq<Seq<char>>, added: bool, path: Seq<char>) -> Seq<Seq<char>> {
    if added {
        bucket.push(path)
    } else {
        bucket
    }
}

/// Two paths added to a bucket, each or not, give the same bucket in either
/// order, but for the order of the paths in it.
pub proof fn lemma_with_path_either_way(
    bucket: Seq<Seq<char>>,
    first_added: bool,
    first: Seq<char>,
    second_added: bool,
    second: Seq<char>,
)
    ensures
        with_path(with_path(bucket, first_added, first), second_added, second).to_multiset()
            == with_path(
            with_path(bucket, second_added, second),
            first_added,
            first,
        ).to_multiset(),
{
    broadcast use vstd::seq_lib::to_multiset_build;

    if first_added && second_added {
        assert(bucket.push(first).push(second).to_multiset() =~= bucket.push(second).push(
            first,
        ).to_multiset());
    }
}

/// What becomes of a path does not rest on the paths that came before, and
/// so the order of two paths does not change what this level counts and
/// what its buckets hold, but for the order of the paths in a bucket.
pub proof fn lemma_order_of_paths(
    before: CoverageView,
    rules: RulesView,
    ignore: PatternView,
    first: Seq<char>,
    second: Seq<char>,
)
    ensures
        ({
            let one = before.covered(rules, ignore, first).covered(rules, ignore, second);
            let other = before.covered(rules, ignore, second).covered(rules, ignore, first);
            &&& one.num_paths == other.num_paths
            &&& one.ignored.to_multiset() == other.ignored.to_multiset()
            &&& one.arbitrary_content.to_multiset() == other.arbitrary_content.to_multiset()
            &&& one.generated_content.to_multiset() == other.generated_content.to_multiset()
            &&& one.out.to_multiset() == other.out.to_multiset()
            &&& one.matched.len() == other.matched.len()
            &&& forall|i: int|
                0 <= i < one.matched.len() ==> (#[trigger] one.matched[i]).to_multiset()
                    == other.matched[i].to_multiset()
        }),
{
    let c1 = classify(rules, ignore, first);
    let c2 = classify(rules, ignore, second);
    let m1 = before.covered(rules, ignore, first);
    let m2 = before.covered(rules, ignore, second);
    let one = m1.covered(rules, ignore, second);
    let other = m2.covered(rules, ignore, first);
    let r1 = match c1 {
        Class::Viable { records, .. } => records,
        _ => Seq::empty(),
    };
    let r2 = match c2 {
        Class::Viable { records, .. } => records,
        _ => Seq::empty(),
    };
    let arb1 = c1 matches Class::Viable { arbitrary, .. } && arbitrary;
    let arb2 = c2 matches Class::Viable { arbitrary, .. } && arbitrary;
    let gen1 = c1 matches Class::Viable { generated, .. } && generated;
    let gen2 = c2 matches Class::Viable { generated, .. } && generated;
    assert(m1.ignored == with_path(before.ignored, c1 is Ignored, first));
    assert(m2.ignored == with_path(before.ignored, c2 is Ignored, second));
    assert(one.ignored == with_path(m1.ignored, c2 is Ignored, second));
    assert(other.ignored == with_path(m2.ignored, c1 is Ignored, first));
    lemma_with_path_either_way(before.ignored, c1 is Ignored, first, c2 is Ignored, second);
    assert(m1.arbitrary_content == with_path(before.arbitrary_content, arb1, first));
    assert(m2.arbitrary_content == with_path(before.arbitrary_content, arb2, second));
    assert(one.arbitrary_content == with_path(m1.arbitrary_content, arb2, second));
    assert(other.arbitrary_content == with_path(m2.arbitrary_content, arb1, first));
    lemma_with_path_either_way(before.arbitrary_content, arb1, first, arb2, second);
    assert(m1.generated_content == with_path(before.generated_content, gen1, first));
    assert(m2.generated_content == with_path(before.generated_content, gen2, second));
    assert(one.generated_content == with_path(m1.generated_content, gen2, second));
    assert(other.generated_content == with_path(m2.generated_content, gen1, first));
    lemma_with_path_either_way(before.generated_content, gen1, first, gen2, second);
    assert(m1.out == with_path(before.out, c1.is_out(), first));
    assert(m2.out == with_path(before.out, c2.is_out(), second));
    assert(one.out == with_path(m1.out, c2.is_out(), second));
    assert(other.out == with_path(m2.out, c1.is_out(), first));
    lemma_with_path_either_way(before.out, c1.is_out(), first, c2.is_out(), second);
    lemma_add_matches(before.matched, r1, first);
    lemma_add_matches(before.matched, r2, second);
    lemma_add_matches(m1.matched, r2, second);
    lemma_add_matches(m2.matched, r1, first);
    assert(m1.matched == add_matches(before.matched, r1, first));
    assert(m2.matched == add_matches(before.matched, r2, second));
    assert(one.matched == add_matches(m1.matched, r2, second));
    assert(other.matched == add_matches(m2.matched, r1, first));
    assert forall|i: int| 0 <= i < one.matched.len() implies (
    #[trigger] one.matched[i]).to_multiset() == other.matched[i].to_multiset() by {
        let firsts = repeated(first, times_named(r1, i));
        let seconds = repeated(second, times_named(r2, i));
        assert(m1.matched[i] == before.matched[i] + firsts);
        assert(m2.matched[i] == before.matched[i] + seconds);
        assert(one.matched[i] == before.matched[i] + firsts + seconds);
        assert(other.matched[i] == before.matched[i] + seconds + firsts);
        vstd::seq_lib::lemma_multiset_commutative(before.matched[i], firsts + seconds);
        vstd::seq_lib::lemma_multiset_commutative(before.matched[i], seconds + firsts);
        vstd::seq_lib::lemma_multiset_commutative(firsts, seconds);
        vstd::seq_lib::lemma_multiset_commutative(seconds, firsts);
        assert(before.matched[i] + firsts + seconds =~= before.matched[i] + (firsts + seconds));
        assert(before.matched[i] + seconds + firsts =~= before.matched[i] + (seconds + firsts));
        assert(firsts.to_multiset().add(seconds.to_multiset()) =~= seconds.to_multiset().add(
            firsts.to_multiset(),
        ));
    }
}

} // verus!
