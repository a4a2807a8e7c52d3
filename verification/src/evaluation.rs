//! Ratings of a listing by one standard or by several, and the choice of the
//! standard that fits best.

use crate::coverage::{cover_listing, cover_listing_with, covering, Coverage};
use crate::data::{std_index, Catalog};
use crate::pattern::{PatternView, RegexEq};
use crate::rating::FULL_FACTOR;
use crate::rules::Rules;
use crate::stds::Standards;
use crate::text::texts;
use vstd::prelude::*;
use vstd::std_specs::convert::FromSpecImpl;

verus! {

/// How well a listing keeps to the standard of that name, in parts of
/// [`FULL_FACTOR`].
#[derive(Debug, Clone)]
pub struct Rating {
    pub name: String,
    pub factor: u32,
}

/// A rating, with the coverage that it was made from where that is kept.
#[derive(Debug)]
pub struct RatingCont<'a> {
    pub rating: Rating,
    pub coverage: Option<Coverage<'a>>,
}

/// Why no best fit was found.
#[derive(Debug, Clone, Copy, PartialEq, Eq, Structural)]
pub enum BestFitError {
    /// There was no rating to choose from.
    NoneViable,
}

/// Why a listing could not be rated.
#[derive(Debug, Clone, Copy, PartialEq, Eq, Structural)]
pub enum Error {
    /// No best fit was found.
    BestFitError(BestFitError),
}

impl From<BestFitError> for Error {
    fn from(error: BestFitError) -> (wrapped: Error) {
        Error::BestFitError(error)
    }
}

impl FromSpecImpl<BestFitError> for Error {
    open spec fn obeys_from_spec() -> bool {
        true
    }

    open spec fn from_spec(error: BestFitError) -> Error {
        Error::BestFitError(error)
    }
}

/// Whether the factor at `k` is the greatest, and the first of that size.
pub open spec fn is_best(factors: Seq<u32>, k: int) -> bool {
    &&& 0 <= k < factors.len()
    &&& forall|j: int| 0 <= j < factors.len() ==> (#[trigger] factors[j]) <= factors[k]
    &&& forall|j: int| 0 <= j < k ==> (#[trigger] factors[j]) < factors[k]
}

/// The factors of the ratings, in their order.
pub open spec fn factors_of(ratings: Seq<RatingCont>) -> Seq<u32> {
    Seq::new(ratings.len(), |i: int| ratings[i].rating.factor)
}

/// There is one best factor at most.
pub proof fn lemma_best_is_one(factors: Seq<u32>, first: int, second: int)
    requires
        is_best(factors, first),
        is_best(factors, second),
    ensures
        first == second,
{
    if first < second {
        assert(factors[first] < factors[second]);
        assert(factors[second] <= factors[first]);
    } else if second < first {
        assert(factors[second] < factors[first]);
        assert(factors[first] <= factors[second]);
    }
}

/// The index of the greatest factor, the first of that size.
pub fn best_index(factors: &Vec<u32>) -> (best: usize)
    requires
        factors@.len() > 0,
    ensures
        is_best(factors@, best as int),
{
    let mut best: usize = 0;
    let mut i: usize = 1;
    while i < factors.len()
        invariant
            1 <= i <= factors@.len(),
            best < i,
            forall|j: int| 0 <= j < i ==> (#[trigger] factors@[j]) <= factors@[best as int],
            forall|j: int| 0 <= j < best ==> (#[trigger] factors@[j]) < factors@[best as int],
        decreases factors@.len() - i,
    {
        if factors[i] > factors[best] {
            best = i;
        }
        i = i + 1;
    }
    best
}

/// Picks the rating with the greatest factor; among equals, the first.
/// Fails only where there is no rating at all: ratings that are all zero
/// still have a best fit, the first of them.
pub fn best_fit<'a>(ratings: Vec<RatingCont<'a>>) -> (r: Result<RatingCont<'a>, BestFitError>)
    ensures
        match r {
            Ok(best) => exists|k: int|
                is_best(factors_of(ratings@), k) && best == #[trigger] ratings@[k],
            Err(error) => ratings@.len() == 0 && error == BestFitError::NoneViable,
        },
{
    if ratings.len() == 0 {
        return Err(BestFitError::NoneViable);
    }
    let mut factors: Vec<u32> = Vec::new();
    let mut i: usize = 0;
    while i < ratings.len()
        invariant
            i <= ratings@.len(),
            factors@.len() == i,
            forall|j: int| 0 <= j < i ==> (#[trigger] factors@[j]) == ratings@[j].rating.factor,
        decreases ratings@.len() - i,
    {
        factors.push(ratings[i].rating.factor);
        i = i + 1;
    }
    assert(factors@ =~= factors_of(ratings@));
    let best = best_index(&factors);
    let mut ratings = ratings;
    let chosen = ratings.remove(best);
    Ok(chosen)
}

impl<'a> RatingCont<'a> {
    /// The rating alone, without the coverage.
    pub fn remove_coverage(self) -> (bare: RatingCont<'a>)
        ensures
            bare.rating == self.rating,
            bare.coverage is None,
    {
        RatingCont { rating: self.rating, coverage: None }
    }
}

impl Rating {
    /// Rates how well the listing keeps to the standard: 0 is not at all,
    /// [`FULL_FACTOR`] is fully.
    pub fn rate_coverage(coverage: &Coverage) -> (rating: Rating)
        requires
            coverage.wf(),
            coverage.std.is_normalized(),
            coverage@.total_paths() <= usize::MAX,
        ensures
            rating.name@ == coverage.std.name@,
            rating.factor == coverage@.rate(coverage.std.weights()),
            rating.factor <= FULL_FACTOR,
    {
        Rating { name: coverage.std.name.clone(), factor: coverage.rate() }
    }
}

/// What the rating of a listing by one standard must be: the name of the
/// standard, the rating of the coverage of the listing, and that coverage.
pub open spec fn rates(
    rated: &RatingCont,
    rules: &Rules,
    ignore: PatternView,
    paths: Seq<Seq<char>>,
) -> bool {
    &&& rated.rating.name@ == rules.std.name@
    &&& rated.rating.factor == covering(rules@, ignore, paths).rate(rules.std.weights())
    &&& rated.coverage matches Some(coverage) && coverage.wf() && coverage.std == rules.std
        && coverage@ == covering(rules@, ignore, paths)
}

/// Rates a listing by every standard of the catalog, in its order.
pub fn rate_listing<'a>(
    dirs_and_files: &Vec<String>,
    ignored_paths: &'a RegexEq,
    catalog: &'a Vec<Rules<'a>>,
) -> (ratings: Vec<RatingCont<'a>>)
    requires
        forall|i: int|
            0 <= i < catalog@.len() ==> (#[trigger] catalog@[i]).wf()
                && catalog@[i].std.is_normalized(),
    ensures
        ratings@.len() == catalog@.len(),
        forall|i: int|
            0 <= i < catalog@.len() ==> rates(
                &#[trigger] ratings@[i],
                &catalog@[i],
                ignored_paths.model(),
                texts(dirs_and_files@),
            ),
{
    let coverages = cover_listing(dirs_and_files, ignored_paths, catalog);
    let count = dirs_and_files.len();
    let mut ratings: Vec<RatingCont<'a>> = Vec::new();
    for coverage in it: coverages
        invariant
            count == dirs_and_files@.len(),
            it.seq().len() == catalog@.len(),
            forall|i: int|
                0 <= i < catalog@.len() ==> (#[trigger] catalog@[i]).wf()
                    && catalog@[i].std.is_normalized(),
            forall|i: int|
                0 <= i < catalog@.len() ==> {
                    &&& (#[trigger] it.seq()[i]).wf()
                    &&& it.seq()[i].std == catalog@[i].std
                    &&& it.seq()[i]@ == covering(
                        catalog@[i]@,
                        ignored_paths.model(),
                        texts(dirs_and_files@),
                    )
                    &&& it.seq()[i]@.total_paths() <= dirs_and_files@.len()
                },
            ratings@.len() == it.index(),
            forall|i: int|
                0 <= i < it.index() ==> rates(
                    &#[trigger] ratings@[i],
                    &catalog@[i],
                    ignored_paths.model(),
                    texts(dirs_and_files@),
                ),
    {
        assert(coverage == it.seq()[it.index() as int]);
        assert(catalog@[it.index() as int].wf());
        let rating = Rating::rate_coverage(&coverage);
        ratings.push(RatingCont { rating, coverage: Some(coverage) });
    }
    ratings
}

/// Rates a listing by the standard of the given name.
pub fn rate_listing_with<'a>(
    dirs_and_files: &Vec<String>,
    ignored_paths: &'a RegexEq,
    catalog: &'a Catalog<'a>,
    std_name: &str,
) -> (rated: RatingCont<'a>)
    requires
        catalog.wf(),
        catalog.has(std_name@),
    ensures
        rates(
            &rated,
            &catalog.stds@[std_index(catalog.stds@, std_name@)->0],
            ignored_paths.model(),
            texts(dirs_and_files@),
        ),
{
    let index = match catalog.get(std_name) {
        Some(index) => index,
        None => {
            assert(false);
            0
        },
    };
    let rules = &catalog.stds[index];
    let coverage = cover_listing_with(dirs_and_files, ignored_paths, rules);
    let count = dirs_and_files.len();
    assert(coverage@.total_paths() <= count);
    let rating = Rating::rate_coverage(&coverage);
    RatingCont { rating, coverage: Some(coverage) }
}

/// Rates a listing by the standards chosen: by the default standard, by
/// the named one, by all, or by all with only the best fit kept. Fails only
/// where the best fit is asked for and the catalog is empty.
pub fn rate_listing_by_stds<'a>(
    dirs_and_files: &Vec<String>,
    ignored_paths: &'a RegexEq,
    catalog: &'a Catalog<'a>,
    stds: &Standards,
) -> (r: Result<Vec<RatingCont<'a>>, Error>)
    requires
        catalog.wf(),
        stds matches Standards::Specific(name) ==> catalog.has(name@),
    ensures
        match *stds {
            Standards::Default => r matches Ok(ratings) && ratings@.len() == 1 && rates(
                &ratings@[0],
                &catalog.stds@[std_index(catalog.stds@, catalog.default_std_name@)->0],
                ignored_paths.model(),
                texts(dirs_and_files@),
            ),
            Standards::Specific(name) => r matches Ok(ratings) && ratings@.len() == 1 && rates(
                &ratings@[0],
                &catalog.stds@[std_index(catalog.stds@, name@)->0],
                ignored_paths.model(),
                texts(dirs_and_files@),
            ),
            Standards::All => r matches Ok(ratings) && ratings@.len() == catalog.stds@.len()
                && forall|i: int|
                0 <= i < catalog.stds@.len() ==> rates(
                    &#[trigger] ratings@[i],
                    &catalog.stds@[i],
                    ignored_paths.model(),
                    texts(dirs_and_files@),
                ),
            Standards::BestFit => if catalog.stds@.len() == 0 {
                r == Err::<Vec<RatingCont<'a>>, Error>(
                    Error::BestFitError(BestFitError::NoneViable),
                )
            } else {
                r matches Ok(ratings) && ratings@.len() == 1 && exists|k: int|
                    #![trigger catalog.stds@[k]]
                    is_fit(catalog, ignored_paths.model(), texts(dirs_and_files@), k) && rates(
                        &ratings@[0],
                        &catalog.stds@[k],
                        ignored_paths.model(),
                        texts(dirs_and_files@),
                    )
            },
        },
{
    match stds {
        Standards::Default => {
            let rated = rate_listing_with(
                dirs_and_files,
                ignored_paths,
                catalog,
                catalog.default_std_name.as_str(),
            );
            let mut ratings: Vec<RatingCont<'a>> = Vec::new();
            ratings.push(rated);
            Ok(ratings)
        },
        Standards::All => Ok(rate_listing(dirs_and_files, ignored_paths, &catalog.stds)),
        Standards::BestFit => {
            let all = rate_listing(dirs_and_files, ignored_paths, &catalog.stds);
            match best_fit(all) {
                Ok(best) => {
                    proof {
                        let k = choose|k: int|
                            is_best(factors_of(all@), k) && best == #[trigger] all@[k];
                        lemma_best_is_fit(
                            catalog,
                            ignored_paths.model(),
                            texts(dirs_and_files@),
                            all@,
                            k,
                        );
                    }
                    let mut ratings: Vec<RatingCont<'a>> = Vec::new();
                    ratings.push(best);
                    Ok(ratings)
                },
                Err(error) => Err(Error::from(error)),
            }
        },
        Standards::Specific(std_name) => {
            let rated = rate_listing_with(
                dirs_and_files,
                ignored_paths,
                catalog,
                std_name.as_str(),
            );
            let mut ratings: Vec<RatingCont<'a>> = Vec::new();
            ratings.push(rated);
            Ok(ratings)
        },
    }
}

/// Among the ratings of a listing by every standard of the catalog, the
/// best is that of the standard that fits the listing best.
pub proof fn lemma_best_is_fit(
    catalog: &Catalog,
    ignore: PatternView,
    paths: Seq<Seq<char>>,
    all: Seq<RatingCont>,
    k: int,
)
    requires
        all.len() == catalog.stds@.len(),
        forall|i: int|
            0 <= i < all.len() ==> rates(&#[trigger] all[i], &catalog.stds@[i], ignore, paths),
        is_best(factors_of(all), k),
    ensures
        is_fit(catalog, ignore, paths, k),
        rates(&all[k], &catalog.stds@[k], ignore, paths),
{
    let factors = fit_factors(catalog, ignore, paths);
    assert(factors =~= factors_of(all)) by {
        assert forall|i: int| 0 <= i < factors.len() implies factors[i] == factors_of(all)[i] by {
            assert(rates(&all[i], &catalog.stds@[i], ignore, paths));
        }
    }
}

/// The ratings of a listing by the standards of the catalog, in its order.
pub open spec fn fit_factors(catalog: &Catalog, ignore: PatternView, paths: Seq<Seq<char>>) -> Seq<
    u32,
> {
    Seq::new(
        catalog.stds@.len(),
        |i: int|
            covering(catalog.stds@[i]@, ignore, paths).rate(catalog.stds@[i].std.weights()) as u32,
    )
}

/// Whether the standard at `k` is the best fit for the listing: none rates
/// it higher, and none before it as high.
pub open spec fn is_fit(
    catalog: &Catalog,
    ignore: PatternView,
    paths: Seq<Seq<char>>,
    k: int,
) -> bool {
    is_best(fit_factors(catalog, ignore, paths), k)
}

} // verus!
