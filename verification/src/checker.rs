//! The checker: it takes the paths of a listing one by one and sorts each
//! into the buckets of a coverage, for one standard.

use crate::classify::{claim_module, classify, matches_any, matching, Verdict};
use crate::coverage::{add_matches, buckets, lemma_module_index, module_index, Coverage,
    CoverageView};
use crate::pattern::RegexEq;
use crate::rules::Rules;
use crate::text::{match_text, same_text, strip_separator, texts};
use vstd::prelude::*;

verus! {

/// Sorts the paths of a listing into the buckets of a coverage, for one
/// standard; the paths of a module go to a checker of their own.
#[derive(Debug)]
pub struct Checker<'a> {
    /// The coverage in the making, without its modules.
    pub coverage: Coverage<'a>,
    /// The pattern of the paths to ignore.
    pub ignored_paths: &'a RegexEq,
    /// The standard, made ready.
    pub rules: &'a Rules<'a>,
    /// The modules met so far, each under its root directory, in the order
    /// in which they were first met.
    pub modules: Vec<(String, Checker<'a>)>,
}

impl<'a> Checker<'a> {
    /// What the checker has gathered, as plain sequences of paths.
    pub open spec fn model(&self) -> CoverageView
        decreases self,
    {
        CoverageView {
            num_paths: self.coverage.num_paths as nat,
            matched: buckets(self.coverage.matched@),
            ignored: texts(self.coverage.ignored@),
            arbitrary_content: texts(self.coverage.arbitrary_content@),
            generated_content: texts(self.coverage.generated_content@),
            out: texts(self.coverage.out@),
            modules: Self::models(self.modules@),
        }
    }

    /// What the checkers of the modules have gathered.
    pub open spec fn models(modules: Seq<(String, Checker<'a>)>) -> Seq<(Seq<char>, CoverageView)>
        decreases modules,
    {
        if modules.len() == 0 {
            Seq::empty()
        } else {
            Self::models(modules.drop_last()).push((modules.last().0@, modules.last().1.model()))
        }
    }

    /// Whether the checker is in order: the standard is ready, there is a
    /// bucket for every rule, the coverage in the making holds no modules,
    /// and the checkers of the modules are in order, with the same standard
    /// and the same pattern of paths to ignore.
    pub open spec fn wf(&self) -> bool
        decreases self,
    {
        &&& self.rules.wf()
        &&& self.coverage.std == self.rules.std
        &&& self.coverage.matched@.len() == self.rules.std.records@.len()
        &&& self.coverage.modules@.len() == 0
        &&& forall|i: int|
            0 <= i < self.modules@.len() ==> (#[trigger] self.modules@[i]).1.wf()
                && self.modules@[i].1.rules == self.rules && self.modules@[i].1.ignored_paths
                == self.ignored_paths
    }

    /// The models of the modules, one by one.
    pub proof fn lemma_models(modules: Seq<(String, Checker<'a>)>)
        ensures
            Self::models(modules).len() == modules.len(),
            forall|i: int|
                0 <= i < modules.len() ==> #[trigger] Self::models(modules)[i] == (
                    modules[i].0@,
                    modules[i].1.model(),
                ),
        decreases modules.len(),
    {
        if modules.len() > 0 {
            Self::lemma_models(modules.drop_last());
        }
    }

    /// A checker that has seen no path yet.
    pub fn new(rules: &'a Rules<'a>, ignored_paths: &'a RegexEq) -> (checker: Checker<'a>)
        requires
            rules.wf(),
        ensures
            checker.wf(),
            checker.rules == rules,
            checker.ignored_paths == ignored_paths,
            checker@ == CoverageView::empty(rules@.records),
    {
        let checker = Checker {
            coverage: Coverage::new(rules.std),
            ignored_paths,
            rules,
            modules: Vec::new(),
        };
        assert(checker@ == checker.coverage@);
        checker
    }

    /// A checker for every standard, in the order of the standards.
    pub fn new_all(catalog: &'a Vec<Rules<'a>>, ignored_paths: &'a RegexEq) -> (checkers: Vec<
        Checker<'a>,
    >)
        requires
            forall|i: int| 0 <= i < catalog@.len() ==> (#[trigger] catalog@[i]).wf(),
        ensures
            checkers@.len() == catalog@.len(),
            forall|i: int|
                0 <= i < catalog@.len() ==> {
                    &&& (#[trigger] checkers@[i]).wf()
                    &&& checkers@[i].rules == &catalog@[i]
                    &&& checkers@[i].ignored_paths == ignored_paths
                    &&& checkers@[i]@ == CoverageView::empty(catalog@[i]@.records)
                },
    {
        let mut checkers: Vec<Checker<'a>> = Vec::new();
        let mut i: usize = 0;
        while i < catalog.len()
            invariant
                i <= catalog.len(),
                checkers@.len() == i,
                forall|j: int| 0 <= j < catalog@.len() ==> (#[trigger] catalog@[j]).wf(),
                forall|j: int|
                    0 <= j < i ==> {
                        &&& (#[trigger] checkers@[j]).wf()
                        &&& checkers@[j].rules == &catalog@[j]
                        &&& checkers@[j].ignored_paths == ignored_paths
                        &&& checkers@[j]@ == CoverageView::empty(catalog@[j]@.records)
                    },
            decreases catalog.len() - i,
        {
            checkers.push(Checker::new(&catalog[i], ignored_paths));
            i = i + 1;
        }
        checkers
    }

    /// Finds out what becomes of a path.
    pub fn classify(&self, path: &str) -> (verdict: Verdict)
        requires
            self.wf(),
        ensures
            verdict@ == classify(self.rules@, self.ignored_paths.model(), path@),
            verdict matches Verdict::Module { key, rest } ==> rest@.len() < path@.len(),
            verdict matches Verdict::Viable { records, arbitrary, generated } ==> forall|i: int|
                0 <= i < records@.len() ==> (#[trigger] records@[i])
                    < self.rules.std.records@.len(),
    {
        match claim_module(&self.rules.module_rgxs, path) {
            Some((key, rest)) => {
                return Verdict::Module { key, rest };
            },
            None => {},
        }
        let text = strip_separator(path);
        if self.ignored_paths.is_match(text) {
            return Verdict::Ignored;
        }
        let tree = &self.rules.tree;
        let ghost leaves = tree.leaves();
        let mut records: Vec<usize> = Vec::new();
        let mut k: usize = 0;
        while k < tree.rec_nodes.len()
            invariant
                k <= tree.rec_nodes@.len(),
                self.wf(),
                tree == &self.rules.tree,
                leaves == tree.leaves(),
                text@ == match_text(path@),
                Seq::new(records@.len(), |i: int| records@[i] as int) == matching(
                    leaves.take(k as int),
                    text@,
                ),
                forall|i: int|
                    0 <= i < records@.len() ==> (#[trigger] records@[i])
                        < self.rules.std.records@.len(),
            decreases tree.rec_nodes@.len() - k,
        {
            assert(tree.leaf_placed(self.rules.std, k as int));
            assert(tree.leaf_compiled(self.rules.std, k as int));
            assert(leaves.take(k + 1).drop_last() == leaves.take(k as int));
            assert(leaves.take(k + 1).last() == (
                tree.leaf_rule(k as int),
                tree.leaf_text(k as int),
            ));
            let node = &tree.nodes[tree.rec_nodes[k]];
            let ghost before = Seq::new(records@.len(), |i: int| records@[i] as int);
            match (&node.value, &node.path_regex) {
                (Some(v), Some(pattern)) => {
                    if pattern.is_match(text) {
                        records.push(*v);
                        assert(Seq::new(records@.len(), |i: int| records@[i] as int)
                            == before.push(*v as int));
                    }
                },
                _ => {
                    assert(false);
                },
            }
            k = k + 1;
        }
        assert(leaves.take(leaves.len() as int) == leaves);
        let arbitrary = records.len() == 0 && matches_any(
            &self.rules.arbitrary_content_rgxs,
            text,
        );
        let generated = matches_any(&self.rules.generated_content_rgxs, text);
        Verdict::Viable { records, arbitrary, generated }
    }
}

impl<'a> View for Checker<'a> {
    type V = CoverageView;

    open spec fn view(&self) -> CoverageView {
        self.model()
    }
}

impl<'a> Checker<'a> {
    /// The index of the first module of that root.
    pub fn find_module(&self, key: &str) -> (found: Option<usize>)
        ensures
            match found {
                Some(i) => i < self.modules@.len() && module_index(self@.modules, key@) == Some(
                    i as int,
                ),
                None => module_index(self@.modules, key@) is None,
            },
    {
        let mut k: usize = 0;
        while k < self.modules.len()
            invariant
                k <= self.modules@.len(),
                forall|j: int| 0 <= j < k ==> (#[trigger] self.modules@[j]).0@ != key@,
            decreases self.modules@.len() - k,
        {
            if same_text(self.modules[k].0.as_str(), key) {
                proof {
                    Self::lemma_first_of_root(self.modules@, key@, k as int);
                }
                return Some(k);
            }
            k = k + 1;
        }
        proof {
            Self::lemma_first_of_root(self.modules@, key@, k as int);
        }
        None
    }

    /// Where no module before index `upto` has the root, the first module
    /// of that root is the one at `upto` if that has it, and there is none
    /// if `upto` is past the last.
    pub proof fn lemma_first_of_root(modules: Seq<(String, Checker<'a>)>, key: Seq<char>, upto: int)
        requires
            0 <= upto <= modules.len(),
            forall|j: int| 0 <= j < upto ==> (#[trigger] modules[j]).0@ != key,
            upto < modules.len() ==> modules[upto].0@ == key,
        ensures
            upto < modules.len() ==> module_index(Self::models(modules), key) == Some(upto),
            upto == modules.len() ==> module_index(Self::models(modules), key) is None,
    {
        Self::lemma_models(modules);
        lemma_module_index(Self::models(modules), key);
        assert forall|j: int| 0 <= j < upto implies (#[trigger] Self::models(modules)[j]).0
            != key by {
            assert(modules[j].0@ != key);
        }
        if upto < modules.len() {
            assert(Self::models(modules)[upto].0 == key);
        }
    }

    /// Takes in a path that counts.
    pub fn count_viable(
        &mut self,
        path: &str,
        records: &Vec<usize>,
        arbitrary: bool,
        generated: bool,
    )
        requires
            old(self).wf(),
            old(self).coverage.num_paths < usize::MAX,
            forall|i: int|
                0 <= i < records@.len() ==> (#[trigger] records@[i])
                    < old(self).rules.std.records@.len(),
        ensures
            final(self).wf(),
            final(self).rules == old(self).rules,
            final(self).ignored_paths == old(self).ignored_paths,
            final(self).modules == old(self).modules,
            final(self)@ == old(self)@.with_viable(
                Seq::new(records@.len(), |i: int| records@[i] as int),
                arbitrary,
                generated,
                path@,
            ),
    {
        let ghost start = *self;
        let ghost named = Seq::new(records@.len(), |i: int| records@[i] as int);
        self.coverage.num_paths = self.coverage.num_paths + 1;
        let mut j: usize = 0;
        while j < records.len()
            invariant
                j <= records.len(),
                named == Seq::new(records@.len(), |i: int| records@[i] as int),
                forall|i: int|
                    0 <= i < records@.len() ==> (#[trigger] records@[i])
                        < start.rules.std.records@.len(),
                start.wf(),
                self.rules == start.rules,
                self.ignored_paths == start.ignored_paths,
                self.modules == start.modules,
                self.coverage.std == start.coverage.std,
                self.coverage.modules == start.coverage.modules,
                self.coverage.num_paths == start.coverage.num_paths + 1,
                self.coverage.ignored == start.coverage.ignored,
                self.coverage.arbitrary_content == start.coverage.arbitrary_content,
                self.coverage.generated_content == start.coverage.generated_content,
                self.coverage.out == start.coverage.out,
                self.coverage.matched@.len() == start.coverage.matched@.len(),
                buckets(self.coverage.matched@) == add_matches(
                    buckets(start.coverage.matched@),
                    named.take(j as int),
                    path@,
                ),
            decreases records.len() - j,
        {
            let r = records[j];
            let ghost before = self.coverage.matched@;
            assert(named.take(j + 1).drop_last() == named.take(j as int));
            assert(named.take(j + 1).last() == r);
            let copy = path.to_owned();
            self.coverage.matched[r].push(copy);
            proof {
                let now = self.coverage.matched@;
                assert(now[r as int]@ == before[r as int]@.push(copy));
                assert(texts(now[r as int]@) =~= texts(before[r as int]@).push(path@));
                assert(buckets(now) =~= buckets(before).update(
                    r as int,
                    buckets(before)[r as int].push(path@),
                )) by {
                    assert forall|i: int| 0 <= i < now.len() implies buckets(now)[i] == buckets(
                        before,
                    ).update(r as int, buckets(before)[r as int].push(path@))[i] by {
                        if i != r {
                            assert(now[i] == before[i]);
                        }
                    }
                }
            }
            j = j + 1;
        }
        assert(named.take(records@.len() as int) == named);
        if arbitrary {
            let ghost before = texts(self.coverage.arbitrary_content@);
            self.coverage.arbitrary_content.push(path.to_owned());
            assert(texts(self.coverage.arbitrary_content@) =~= before.push(path@));
        }
        if generated {
            let ghost before = texts(self.coverage.generated_content@);
            self.coverage.generated_content.push(path.to_owned());
            assert(texts(self.coverage.generated_content@) =~= before.push(path@));
        }
        if records.len() == 0 && !arbitrary && !generated {
            let ghost before = texts(self.coverage.out@);
            self.coverage.out.push(path.to_owned());
            assert(texts(self.coverage.out@) =~= before.push(path@));
        }
    }

    /// Takes in one path of the listing: hands it to the module it lies in,
    /// or sets it aside as ignored, or counts it and puts it into every
    /// bucket it belongs to.
    pub fn cover(&mut self, dir_or_file: &str)
        requires
            old(self).wf(),
            old(self)@.has_room(old(self).rules@, old(self).ignored_paths.model(), dir_or_file@),
        ensures
            final(self).wf(),
            final(self).rules == old(self).rules,
            final(self).ignored_paths == old(self).ignored_paths,
            final(self)@ == old(self)@.covered(
                old(self).rules@,
                old(self).ignored_paths.model(),
                dir_or_file@,
            ),
            final(self)@.total_paths() <= old(self)@.total_paths() + 1,
            final(self)@.taken() == old(self)@.taken() + 1,
        decreases dir_or_file@.len(),
    {
        let ghost start = *self;
        let ghost rules = self.rules@;
        let ghost ignore = self.ignored_paths.model();
        proof {
            start@.lemma_covered_total(rules, ignore, dir_or_file@);
            start@.lemma_every_path_taken(rules, ignore, dir_or_file@);
        }
        match self.classify(dir_or_file) {
            Verdict::Module { key, rest } => {
                proof {
                    Self::lemma_models(start.modules@);
                }
                match self.find_module(key.as_str()) {
                    Some(i) => {
                        self.modules[i].1.cover(rest.as_str());
                        proof {
                            Self::lemma_models(self.modules@);
                            let child = start.modules@[i as int].1;
                            assert(self@.modules =~= start@.modules.update(
                                i as int,
                                (key@, child@.covered(rules, ignore, rest@)),
                            )) by {
                                assert forall|j: int| 0 <= j < self.modules@.len() implies self@.modules[j]
                                    == start@.modules.update(
                                    i as int,
                                    (key@, child@.covered(rules, ignore, rest@)),
                                )[j] by {
                                    if j != i {
                                        assert(self.modules@[j] == start.modules@[j]);
                                    } else {
                                        lemma_module_index(start@.modules, key@);
                                        assert(self.modules@[j].0 == start.modules@[j].0);
                                        assert(start.modules@[j].1.rules == start.rules);
                                        assert(start.modules@[j].1.ignored_paths
                                            == start.ignored_paths);
                                    }
                                }
                            }
                        }
                    },
                    None => {
                        let mut child = Checker::new(self.rules, self.ignored_paths);
                        child.cover(rest.as_str());
                        self.modules.push((key, child));
                        proof {
                            assert(self.modules@.drop_last() == start.modules@);
                        }
                    },
                }
            },
            Verdict::Ignored => {
                let ghost before = texts(self.coverage.ignored@);
                self.coverage.ignored.push(dir_or_file.to_owned());
                assert(texts(self.coverage.ignored@) =~= before.push(dir_or_file@));
            },
            Verdict::Viable { records, arbitrary, generated } => {
                self.count_viable(dir_or_file, &records, arbitrary, generated);
            },
        }
    }
}

impl<'a> Checker<'a> {
    /// Ends the check: the coverage gathered, with the coverage of every
    /// module under its root.
    pub fn coverage(self) -> (coverage: Coverage<'a>)
        requires
            self.wf(),
        ensures
            coverage.wf(),
            coverage.std == self.rules.std,
            coverage@ == self@,
        decreases self,
    {
        let ghost whole = self;
        let Checker { coverage, ignored_paths, rules, modules } = self;
        let mut coverage = coverage;
        coverage.modules.clear();
        assert forall|j: int| 0 <= j < whole.modules@.len() implies decreases_to!(
            whole => (#[trigger] whole.modules@[j]).1
        ) by {
            assert(decreases_to!(whole => whole.modules));
            assert(decreases_to!(whole.modules => whole.modules@));
            assert(decreases_to!(whole.modules@ => whole.modules@[j]));
            assert(decreases_to!(whole.modules@[j] => whole.modules@[j].1));
        }
        for entry in it: modules
            invariant
                whole.wf(),
                whole == self,
                forall|j: int|
                    0 <= j < whole.modules@.len() ==> decreases_to!(
                        whole => (#[trigger] whole.modules@[j]).1
                    ),
                it.seq() == whole.modules@,
                coverage.std == whole.rules.std,
                coverage.num_paths == whole.coverage.num_paths,
                coverage.matched == whole.coverage.matched,
                coverage.ignored == whole.coverage.ignored,
                coverage.arbitrary_content == whole.coverage.arbitrary_content,
                coverage.generated_content == whole.coverage.generated_content,
                coverage.out == whole.coverage.out,
                coverage.modules@.len() == it.index(),
                forall|j: int|
                    0 <= j < it.index() ==> {
                        &&& (#[trigger] coverage.modules@[j]).1.wf()
                        &&& coverage.modules@[j].1.std == whole.rules.std
                        &&& coverage.modules@[j].0@ == whole.modules@[j].0@
                        &&& coverage.modules@[j].1@ == whole.modules@[j].1@
                    },
        {
            let ghost j = it.index() as int;
            assert(entry == whole.modules@[j]);
            let (key, child) = entry;
            let finished = child.coverage();
            coverage.modules.push((key, finished));
        }
        proof {
            Coverage::lemma_models(coverage.modules@);
            Self::lemma_models(whole.modules@);
            assert(coverage@.modules =~= whole@.modules);
        }
        coverage
    }
}

} // verus!
