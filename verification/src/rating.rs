//! How well a listing keeps to a standard: the rating of a coverage.
//!
//! Weights and ratings are whole numbers. A rating is given in parts of
//! [`FULL_FACTOR`]; every division rounds down.

use crate::coverage::{Coverage, CoverageView};
use crate::format::{sum, FULL_WEIGHT};
use crate::text::{ends_with_separator, is_dir_path, texts};
use vstd::prelude::*;

verus! {

/// The rating of a listing that keeps to the standard fully.
pub const FULL_FACTOR: u32 = 1_000_000;

/// Whether the pattern of some rule matched a path.
pub open spec fn any_matched(matched: Seq<Seq<Seq<char>>>) -> bool {
    exists|i: int| 0 <= i < matched.len() && (#[trigger] matched[i]).len() > 0
}

/// The weights of the rules whose pattern matched a path, added up.
pub open spec fn matched_weight(matched: Seq<Seq<Seq<char>>>, weights: Seq<nat>) -> nat
    decreases matched.len(),
{
    if matched.len() == 0 {
        0
    } else {
        let i = matched.len() - 1;
        matched_weight(matched.drop_last(), weights) + if matched.last().len() > 0 && i
            < weights.len() {
            weights[i]
        } else {
            0
        }
    }
}

/// The number of paths that are not written as directories.
pub open spec fn count_files(paths: Seq<Seq<char>>) -> nat
    decreases paths.len(),
{
    if paths.len() == 0 {
        0
    } else {
        count_files(paths.drop_last()) + if is_dir_path(paths.last()) {
            0nat
        } else {
            1nat
        }
    }
}

/// The weights that matched come to no more than the weights of the rules
/// up to there.
pub proof fn lemma_matched_weight_bounded(matched: Seq<Seq<Seq<char>>>, weights: Seq<nat>)
    requires
        matched.len() <= weights.len(),
    ensures
        matched_weight(matched, weights) <= sum(weights.take(matched.len() as int)),
    decreases matched.len(),
{
    if matched.len() > 0 {
        let i = matched.len() - 1;
        lemma_matched_weight_bounded(matched.drop_last(), weights);
        assert(weights.take(matched.len() as int).drop_last() == weights.take(i));
    }
}

/// There are no more files than paths.
pub proof fn lemma_count_files_bounded(paths: Seq<Seq<char>>)
    ensures
        count_files(paths) <= paths.len(),
    decreases paths.len(),
{
    if paths.len() > 0 {
        lemma_count_files_bounded(paths.drop_last());
    }
}

impl CoverageView {
    /// The rating of the paths of this level alone, without the modules.
    ///
    /// With `pos` the weight that matched, `n` the number of rules, `total`
    /// the weight of all rules and `files` the number of files that nothing
    /// accounts for, the average weight of a rule is `total / n`, the weight
    /// against the listing is `files * total / n`, and the rating is
    /// `pos / (pos + files * total / n)`, which is `pos * n / (pos * n +
    /// files * total)`. Where that sum is zero, the rating is `pos`, which is
    /// zero then.
    pub open spec fn own_factor(self, weights: Seq<nat>) -> nat {
        let pos = matched_weight(self.matched, weights);
        let n = weights.len();
        let total = sum(weights);
        let files = count_files(self.out);
        let whole = pos * n + files * total;
        if whole > 0 {
            FULL_FACTOR as nat * (pos * n) / whole
        } else {
            pos
        }
    }

    /// The rating of the coverage, in parts of [`FULL_FACTOR`].
    ///
    /// Zero where no rule matched a path. Else the average of the rating of
    /// this level and the ratings of the modules directly below, each
    /// weighted by the number of paths that count at its own level.
    pub open spec fn rate(self, weights: Seq<nat>) -> nat
        decreases self,
    {
        if !any_matched(self.matched) {
            0
        } else {
            let weighted = self.num_paths * self.own_factor(weights) + Self::weighted_of(
                self.modules,
                weights,
            );
            let paths = self.num_paths + Self::paths_of(self.modules);
            if paths > 0 {
                weighted / paths
            } else {
                self.own_factor(weights)
            }
        }
    }

    /// The ratings of the modules, each times the number of paths that count
    /// at its own level, added up.
    pub open spec fn weighted_of(modules: Seq<(Seq<char>, CoverageView)>, weights: Seq<nat>) -> nat
        decreases modules,
    {
        if modules.len() == 0 {
            0
        } else {
            Self::weighted_of(modules.drop_last(), weights) + modules.last().1.num_paths
                * modules.last().1.rate(weights)
        }
    }

    /// The number of paths that count at the modules' own levels.
    pub open spec fn paths_of(modules: Seq<(Seq<char>, CoverageView)>) -> nat
        decreases modules.len(),
    {
        if modules.len() == 0 {
            0
        } else {
            Self::paths_of(modules.drop_last()) + modules.last().1.num_paths
        }
    }

    /// The rating of one level is at most [`FULL_FACTOR`].
    pub proof fn lemma_own_factor_bounded(self, weights: Seq<nat>)
        requires
            self.matched.len() == weights.len(),
            sum(weights) <= FULL_WEIGHT,
        ensures
            self.own_factor(weights) <= FULL_FACTOR,
    {
        let pos = matched_weight(self.matched, weights);
        let n = weights.len();
        let total = sum(weights);
        let files = count_files(self.out);
        let whole = pos * n + files * total;
        lemma_matched_weight_bounded(self.matched, weights);
        assert(weights.take(weights.len() as int) == weights);
        if whole > 0 {
            assert(files * total >= 0) by (nonlinear_arith)
                requires
                    files >= 0,
                    total >= 0,
            ;
            assert(FULL_FACTOR as nat * (pos * n) <= FULL_FACTOR as nat * whole)
                by (nonlinear_arith)
                requires
                    pos * n <= whole,
            ;
            vstd::arithmetic::div_mod::lemma_div_is_ordered(
                (FULL_FACTOR as nat * (pos * n)) as int,
                (FULL_FACTOR as nat * whole) as int,
                whole as int,
            );
            vstd::arithmetic::div_mod::lemma_div_multiples_vanish(
                FULL_FACTOR as int,
                whole as int,
            );
            assert(FULL_FACTOR as nat * whole == whole * FULL_FACTOR as nat) by (nonlinear_arith);
        }
    }

    /// The paths at the modules' own levels are among all the paths below.
    pub proof fn lemma_paths_of_bounded(modules: Seq<(Seq<char>, CoverageView)>)
        ensures
            Self::paths_of(modules) <= Self::total_of(modules),
        decreases modules.len(),
    {
        if modules.len() > 0 {
            Self::lemma_paths_of_bounded(modules.drop_last());
            let last = modules.last().1;
            assert(last.total_paths() == last.num_paths + Self::total_of(last.modules));
        }
    }

    /// Whether the coverage has a bucket for each weight, at every level.
    pub open spec fn fits(self, weights: Seq<nat>) -> bool
        decreases self,
    {
        &&& self.matched.len() == weights.len()
        &&& forall|i: int|
            0 <= i < self.modules.len() ==> (#[trigger] self.modules[i]).1.fits(weights)
    }

    /// A rating is at most [`FULL_FACTOR`].
    pub proof fn lemma_rate_bounded(self, weights: Seq<nat>)
        requires
            self.fits(weights),
            sum(weights) <= FULL_WEIGHT,
        ensures
            self.rate(weights) <= FULL_FACTOR,
        decreases self, 1nat,
    {
        if any_matched(self.matched) {
            self.lemma_own_factor_bounded(weights);
            Self::lemma_weighted_of_bounded(self.modules, weights);
            let own = self.own_factor(weights);
            let weighted = self.num_paths * own + Self::weighted_of(self.modules, weights);
            let paths = self.num_paths + Self::paths_of(self.modules);
            if paths > 0 {
                assert(self.num_paths * own <= self.num_paths * FULL_FACTOR) by (nonlinear_arith)
                    requires
                        own <= FULL_FACTOR,
                ;
                assert(weighted <= FULL_FACTOR * paths) by (nonlinear_arith)
                    requires
                        weighted <= self.num_paths * FULL_FACTOR + FULL_FACTOR * Self::paths_of(
                            self.modules,
                        ),
                        paths == self.num_paths + Self::paths_of(self.modules),
                ;
                vstd::arithmetic::div_mod::lemma_div_is_ordered(
                    weighted as int,
                    (FULL_FACTOR * paths) as int,
                    paths as int,
                );
                vstd::arithmetic::div_mod::lemma_div_multiples_vanish(
                    FULL_FACTOR as int,
                    paths as int,
                );
                assert(FULL_FACTOR * paths == paths * FULL_FACTOR) by (nonlinear_arith);
            }
        }
    }

    /// The weighted ratings of the modules come to at most
    /// [`FULL_FACTOR`] for every path at their own levels.
    pub proof fn lemma_weighted_of_bounded(
        modules: Seq<(Seq<char>, CoverageView)>,
        weights: Seq<nat>,
    )
        requires
            forall|i: int| 0 <= i < modules.len() ==> (#[trigger] modules[i]).1.fits(weights),
            sum(weights) <= FULL_WEIGHT,
        ensures
            Self::weighted_of(modules, weights) <= FULL_FACTOR * Self::paths_of(modules),
        decreases modules, 0nat,
    {
        if modules.len() > 0 {
            let before = modules.drop_last();
            let last = modules.last().1;
            assert forall|i: int| 0 <= i < before.len() implies (#[trigger] before[i]).1.fits(
                weights,
            ) by {
                assert(before[i] == modules[i]);
            }
            Self::lemma_weighted_of_bounded(before, weights);
            assert(modules[modules.len() - 1].1.fits(weights));
            last.lemma_rate_bounded(weights);
            assert(last.num_paths * last.rate(weights) <= FULL_FACTOR * last.num_paths)
                by (nonlinear_arith)
                requires
                    last.rate(weights) <= FULL_FACTOR,
            ;
            assert(FULL_FACTOR * Self::paths_of(modules) == FULL_FACTOR * Self::paths_of(before)
                + FULL_FACTOR * last.num_paths) by (nonlinear_arith)
                requires
                    Self::paths_of(modules) == Self::paths_of(before) + last.num_paths,
            ;
        }
    }
}

impl<'a> Coverage<'a> {
    /// A coverage in order has a bucket for each weight of its standard, at
    /// every level.
    pub proof fn lemma_wf_fits(&self)
        requires
            self.wf(),
        ensures
            self@.fits(self.std.weights()),
        decreases self,
    {
        Self::lemma_models(self.modules@);
        assert(self@.matched.len() == self.std.weights().len());
        assert forall|i: int| 0 <= i < self@.modules.len() implies (
        #[trigger] self@.modules[i]).1.fits(self.std.weights()) by {
            assert(self.modules@[i].1.wf());
            self.modules@[i].1.lemma_wf_fits();
        }
    }

    /// The weight of the rules whose pattern matched a path, and whether
    /// there is such a rule.
    pub fn matched_rules(&self) -> (r: (u128, bool))
        requires
            self.wf(),
        ensures
            r.0 == matched_weight(self@.matched, self.std.weights()),
            r.0 <= sum(self.std.weights()),
            r.1 == any_matched(self@.matched),
    {
        let ghost weights = self.std.weights();
        let ghost matched = self@.matched;
        let mut pos: u128 = 0;
        let mut any = false;
        let mut i: usize = 0;
        while i < self.matched.len()
            invariant
                i <= self.matched@.len(),
                self.wf(),
                weights == self.std.weights(),
                matched == self@.matched,
                pos == matched_weight(matched.take(i as int), weights),
                pos <= i * u32::MAX,
                any == any_matched(matched.take(i as int)),
            decreases self.matched@.len() - i,
        {
            let ghost upto = matched.take(i + 1);
            assert(upto.drop_last() == matched.take(i as int));
            assert(upto.last() == texts(self.matched@[i as int]@));
            assert((i + 1) * u32::MAX == i * u32::MAX + u32::MAX) by (nonlinear_arith);
            assert(i * u32::MAX <= usize::MAX * u32::MAX) by (nonlinear_arith)
                requires
                    i <= usize::MAX,
            ;
            if self.matched[i].len() > 0 {
                pos = pos + self.std.records[i].indicativeness as u128;
                any = true;
                assert(upto[i as int].len() > 0);
            } else {
                assert(any_matched(upto) == any) by {
                    if any_matched(upto) {
                        let w = choose|w: int|
                            0 <= w < upto.len() && (#[trigger] upto[w]).len() > 0;
                        assert(matched.take(i as int)[w] == upto[w]);
                    }
                    if any {
                        let w = choose|w: int|
                            0 <= w < i && (#[trigger] matched.take(i as int)[w]).len() > 0;
                        assert(upto[w] == matched.take(i as int)[w]);
                    }
                }
            }
            proof {
                if any_matched(matched.take(i as int)) {
                    let w = choose|w: int|
                        0 <= w < i && (#[trigger] matched.take(i as int)[w]).len() > 0;
                    assert(upto[w] == matched.take(i as int)[w]);
                }
            }
            i = i + 1;
        }
        proof {
            assert(matched.take(matched.len() as int) == matched);
            lemma_matched_weight_bounded(matched, weights);
            assert(weights.take(matched.len() as int) == weights);
        }
        (pos, any)
    }

    /// Whether the pattern of some rule matched a path.
    pub fn any_rule_matched(&self) -> (any: bool)
        ensures
            any == any_matched(self@.matched),
    {
        let ghost matched = self@.matched;
        let mut i: usize = 0;
        while i < self.matched.len()
            invariant
                i <= self.matched@.len(),
                matched == self@.matched,
                forall|j: int| 0 <= j < i ==> (#[trigger] matched[j]).len() == 0,
            decreases self.matched@.len() - i,
        {
            if self.matched[i].len() > 0 {
                assert(matched[i as int] == texts(self.matched@[i as int]@));
                assert(matched[i as int].len() > 0);
                return true;
            }
            assert(matched[i as int] == texts(self.matched@[i as int]@));
            i = i + 1;
        }
        false
    }

    /// The number of paths that nothing accounts for and that are not
    /// written as directories.
    pub fn out_files(&self) -> (files: usize)
        ensures
            files == count_files(self@.out),
    {
        let ghost out = self@.out;
        let mut files: usize = 0;
        let mut i: usize = 0;
        while i < self.out.len()
            invariant
                i <= self.out@.len(),
                out == texts(self.out@),
                files == count_files(out.take(i as int)),
                files <= i,
            decreases self.out@.len() - i,
        {
            assert(out.take(i + 1).drop_last() == out.take(i as int));
            assert(out.take(i + 1).last() == self.out@[i as int]@);
            if !ends_with_separator(self.out[i].as_str()) {
                files = files + 1;
            }
            i = i + 1;
        }
        assert(out.take(out.len() as int) == out);
        files
    }

    /// Rates how well the listing keeps to the standard, in parts of
    /// [`FULL_FACTOR`]: 0 is not at all, [`FULL_FACTOR`] is fully.
    ///
    /// Where no rule matched a path the rating is 0, whatever else the
    /// coverage holds, and nothing is asked of the coverage. Where a rule
    /// matched, the coverage must be in order, its standard normalized, and
    /// the paths that count must be no more than the machine counts to.
    pub fn rate(&self) -> (factor: u32)
        requires
            any_matched(self@.matched) ==> self.wf() && self.std.is_normalized()
                && self@.total_paths() <= usize::MAX,
        ensures
            factor == self@.rate(self.std.weights()),
            factor <= FULL_FACTOR,
            !any_matched(self@.matched) ==> factor == 0,
        decreases self,
    {
        if !self.any_rule_matched() {
            return 0;
        }
        let ghost weights = self.std.weights();
        let ghost model = self@;
        proof {
            self.lemma_wf_fits();
            model.lemma_rate_bounded(weights);
            model.lemma_own_factor_bounded(weights);
            Self::lemma_models(self.modules@);
            CoverageView::lemma_paths_of_bounded(model.modules);
        }
        let (pos, any) = self.matched_rules();
        let total = self.std.total_weight();
        let files = self.out_files();
        let n = self.std.records.len();
        proof {
            lemma_count_files_bounded(model.out);
            assert(pos * n <= FULL_WEIGHT * usize::MAX) by (nonlinear_arith)
                requires
                    pos <= FULL_WEIGHT,
                    n <= usize::MAX,
            ;
            assert(files * total <= usize::MAX * FULL_WEIGHT) by (nonlinear_arith)
                requires
                    total <= FULL_WEIGHT,
                    files <= usize::MAX,
            ;
            assert(FULL_FACTOR * (pos * n) <= FULL_FACTOR * (FULL_WEIGHT * usize::MAX))
                by (nonlinear_arith)
                requires
                    pos * n <= FULL_WEIGHT * usize::MAX,
            ;
        }
        let part = pos * n as u128;
        let whole = part + files as u128 * total;
        let own: u128 = if whole > 0 {
            FULL_FACTOR as u128 * part / whole
        } else {
            pos
        };
        assert(own == model.own_factor(weights));
        proof {
            assert(self.num_paths * own <= usize::MAX * FULL_FACTOR) by (nonlinear_arith)
                requires
                    own <= FULL_FACTOR,
                    self.num_paths <= usize::MAX,
            ;
            assert(self.num_paths * own <= FULL_FACTOR * self.num_paths) by (nonlinear_arith)
                requires
                    own <= FULL_FACTOR,
            ;
        }
        let mut weighted: u128 = self.num_paths as u128 * own;
        let mut paths: u128 = self.num_paths as u128;
        assert forall|j: int| 0 <= j < self.modules@.len() implies decreases_to!(
            self => (#[trigger] self.modules@[j]).1
        ) by {
            assert(decreases_to!(self => self.modules));
            assert(decreases_to!(self.modules => self.modules@));
            assert(decreases_to!(self.modules@ => self.modules@[j]));
            assert(decreases_to!(self.modules@[j] => self.modules@[j].1));
        }
        let mut i: usize = 0;
        while i < self.modules.len()
            invariant
                i <= self.modules@.len(),
                self.wf(),
                self.std.is_normalized(),
                model == self@,
                weights == self.std.weights(),
                model.total_paths() <= usize::MAX,
                own <= FULL_FACTOR,
                forall|j: int|
                    0 <= j < self.modules@.len() ==> decreases_to!(
                        self => (#[trigger] self.modules@[j]).1
                    ),
                weighted == self.num_paths * own + CoverageView::weighted_of(
                    model.modules.take(i as int),
                    weights,
                ),
                paths == self.num_paths + CoverageView::paths_of(model.modules.take(i as int)),
                weighted <= FULL_FACTOR * paths,
                paths <= self.num_paths + CoverageView::paths_of(model.modules),
            decreases self.modules@.len() - i,
        {
            let module = &self.modules[i].1;
            proof {
                Self::lemma_models(self.modules@);
                CoverageView::lemma_total_of_bounds(model.modules, i as int);
                CoverageView::lemma_paths_of_bounded(model.modules);
                assert(model.modules.take(i + 1).drop_last() == model.modules.take(i as int));
                assert(model.modules.take(i + 1).last() == (self.modules@[i as int].0@, module@));
                Self::lemma_paths_of_prefix(model.modules, i + 1);
            }
            let rated = module.rate();
            proof {
                assert(module.num_paths * rated <= FULL_FACTOR * module.num_paths)
                    by (nonlinear_arith)
                    requires
                        rated <= FULL_FACTOR,
                ;
                assert(FULL_FACTOR * (paths + module.num_paths) == FULL_FACTOR * paths
                    + FULL_FACTOR * module.num_paths) by (nonlinear_arith);
                assert(FULL_FACTOR * (paths + module.num_paths) <= FULL_FACTOR * usize::MAX)
                    by (nonlinear_arith)
                    requires
                        paths + module.num_paths <= usize::MAX,
                ;
            }
            weighted = weighted + module.num_paths as u128 * rated as u128;
            paths = paths + module.num_paths as u128;
            i = i + 1;
        }
        assert(model.modules.take(model.modules.len() as int) == model.modules);
        let factor = if paths > 0 {
            weighted / paths
        } else {
            own
        };
        factor as u32
    }

    /// The paths at the own levels of the first modules are among those of
    /// all modules.
    pub proof fn lemma_paths_of_prefix(modules: Seq<(Seq<char>, CoverageView)>, count: int)
        requires
            0 <= count <= modules.len(),
        ensures
            CoverageView::paths_of(modules.take(count)) <= CoverageView::paths_of(modules),
        decreases modules.len(),
    {
        if count < modules.len() {
            assert(modules.drop_last().take(count) == modules.take(count));
            Self::lemma_paths_of_prefix(modules.drop_last(), count);
        } else {
            assert(modules.take(count) == modules);
        }
    }
}

/// A coverage in which no rule matched a path rates zero, whatever paths
/// are unaccounted for and whatever its modules hold.
pub proof fn lemma_unmatched_rates_zero(coverage: CoverageView, weights: Seq<nat>)
    requires
        !any_matched(coverage.matched),
    ensures
        coverage.rate(weights) == 0,
{
}

} // verus!
