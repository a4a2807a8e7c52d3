//! The rules of a directory standard, in their tabular and in their parsed form.

use crate::text::{ends_with_separator, is_dir_path, join_texts, joined, push_char, split,
    split_text, texts};
use vstd::prelude::*;
use vstd::std_specs::convert::FromSpecImpl;

verus! {

/// The weight that stands for the whole of a standard. The weights of a
/// normalized standard add up to this, or to a little less where the
/// division left remainders.
pub const FULL_WEIGHT: u32 = 1_000_000;

/// The character between the alternatives of a rule, and between its tags.
pub const ALTERNATIVE: char = '|';

/// A flag with three states: set to false, set to true, or left open.
#[derive(Debug, Clone, Copy, PartialEq, Eq, Structural)]
pub enum OptBool {
    False,
    True,
    Unset,
}

impl OptBool {
    /// The state that stands for an optional flag.
    pub open spec fn of(value: Option<bool>) -> OptBool {
        match value {
            Some(false) => OptBool::False,
            Some(true) => OptBool::True,
            None => OptBool::Unset,
        }
    }

    /// The optional flag that this state stands for.
    pub open spec fn flag(self) -> Option<bool> {
        match self {
            OptBool::False => Some(false),
            OptBool::True => Some(true),
            OptBool::Unset => None,
        }
    }

    /// The source text of the optional flag.
    pub open spec fn code(self) -> Seq<char> {
        match self {
            OptBool::False => "Some(false)"@,
            OptBool::True => "Some(true)"@,
            OptBool::Unset => "None"@,
        }
    }

    /// Writes the state as the source text of an `Option<bool>`.
    pub fn init_code(&self) -> (code: &'static str)
        ensures
            code@ == self.code(),
    {
        match self {
            OptBool::False => "Some(false)",
            OptBool::True => "Some(true)",
            OptBool::Unset => "None",
        }
    }

    /// The optional flag that this state stands for.
    pub fn to_option(&self) -> (value: Option<bool>)
        ensures
            value == self.flag(),
            OptBool::of(value) == *self,
    {
        match self {
            OptBool::False => Some(false),
            OptBool::True => Some(true),
            OptBool::Unset => None,
        }
    }
}

impl From<Option<bool>> for OptBool {
    fn from(value: Option<bool>) -> (state: OptBool) {
        match value {
            Some(false) => OptBool::False,
            Some(true) => OptBool::True,
            None => OptBool::Unset,
        }
    }
}

impl FromSpecImpl<Option<bool>> for OptBool {
    open spec fn obeys_from_spec() -> bool {
        true
    }

    open spec fn from_spec(value: Option<bool>) -> OptBool {
        OptBool::of(value)
    }
}

/// One rule of a standard, ready for use.
#[derive(Debug, Clone)]
pub struct Rec {
    /// The path that the rule is about, its segments separated by `/`. The
    /// path names the rule: no two rules of a standard share it.
    pub path: String,
    /// Whether the standard demands what the rule describes.
    pub normative: bool,
    /// Whether what the rule describes is kept under version control.
    pub versioned: bool,
    /// Whether what lies there is generated from other content.
    pub generated: bool,
    /// Whether the directories that the rule matches are modules: projects
    /// of their own, checked against the same standard.
    pub module: bool,
    /// Whether the rule is about a directory; its path then ends in `/`.
    pub directory: bool,
    /// Whether anything may lie below: yes, no, or nothing said. Only a plain
    /// yes has an effect on a check.
    pub arbitrary_content: Option<bool>,
    /// Free labels, none twice.
    pub tags: Vec<String>,
    /// How much the rule says about whether a project follows the standard:
    /// its weight, in parts of [`FULL_WEIGHT`].
    pub indicativeness: u32,
    /// The names that the last segment of the path may take, letter by
    /// letter. A rule has either these or `regex`.
    pub variations: Option<Vec<String>>,
    /// The pattern for the last segment of the path.
    pub regex: Option<String>,
    /// What the rule is about, for people.
    pub description: String,
    /// What may typically be found there, for people.
    pub sample_content: String,
}

/// One rule of a standard as a row of its definition table: alternatives and
/// tags are each one text, with [`ALTERNATIVE`] between the entries.
#[derive(Debug, Clone)]
pub struct Record {
    pub path: String,
    pub normative: bool,
    pub versioned: bool,
    pub generated: bool,
    pub module: bool,
    pub arbitrary_content: OptBool,
    pub tags: String,
    pub indicativeness: u32,
    pub variations: Option<String>,
    pub regex: Option<String>,
    pub description: String,
    pub sample_content: String,
}

/// The alternation `(a|b|c)` of the given alternatives.
pub open spec fn alternation(variations: Seq<Seq<char>>) -> Seq<char> {
    seq!['('] + joined(variations, ALTERNATIVE) + seq![')']
}

/// The texts without repetitions, each where it first occurs.
pub open spec fn distinct(all: Seq<Seq<char>>) -> Seq<Seq<char>>
    decreases all.len(),
{
    if all.len() == 0 {
        all
    } else {
        let before = distinct(all.drop_last());
        if before.contains(all.last()) {
            before
        } else {
            before.push(all.last())
        }
    }
}

/// Whether any of the strings holds the wanted text.
pub fn contains_text(all: &Vec<String>, wanted: &str) -> (found: bool)
    ensures
        found == texts(all@).contains(wanted@),
{
    let mut i: usize = 0;
    while i < all.len()
        invariant
            i <= all.len(),
            forall|j: int| 0 <= j < i ==> all@[j]@ != wanted@,
        decreases all.len() - i,
    {
        if crate::text::same_text(all[i].as_str(), wanted) {
            assert(texts(all@)[i as int] == wanted@);
            return true;
        }
        i = i + 1;
    }
    false
}

/// Drops every text that occurred before.
pub fn dedup_texts(all: Vec<String>) -> (kept: Vec<String>)
    ensures
        texts(kept@) == distinct(texts(all@)),
{
    let mut kept: Vec<String> = Vec::new();
    let mut i: usize = 0;
    while i < all.len()
        invariant
            i <= all.len(),
            texts(kept@) == distinct(texts(all@).take(i as int)),
        decreases all.len() - i,
    {
        let ghost upto = texts(all@).take(i + 1);
        assert(upto.drop_last() == texts(all@).take(i as int));
        assert(upto.last() == all@[i as int]@);
        if !contains_text(&kept, all[i].as_str()) {
            let ghost before = texts(kept@);
            kept.push(all[i].clone());
            assert(texts(kept@) == before.push(all@[i as int]@));
        }
        i = i + 1;
    }
    assert(texts(all@).take(all.len() as int) == texts(all@));
    kept
}

/// Joins the entries of a set of names with `token` between them.
pub fn join_set(col: &Vec<String>, token: char) -> (whole: String)
    ensures
        whole@ == joined(texts(col@), token),
{
    join_texts(col, token)
}

impl Rec {
    /// The pattern for the last segment of the rule's path: the alternation
    /// of its variations, or its explicit pattern. A rule must have exactly
    /// one of the two.
    pub open spec fn segment_pattern(&self) -> Option<Seq<char>> {
        match (self.variations, self.regex) {
            (Some(vars), None) => Some(alternation(texts(vars@))),
            (None, Some(re)) => Some(re@),
            _ => None,
        }
    }

    /// The pattern for the last segment of the rule's path, or `None` where
    /// the rule has neither variations nor a pattern, or both.
    pub fn get_regex_str(&self) -> (pattern: Option<String>)
        ensures
            match pattern {
                Some(p) => self.segment_pattern() == Some(p@),
                None => self.segment_pattern() is None,
            },
    {
        match (&self.variations, &self.regex) {
            (Some(vars), None) => {
                let mut p = String::new();
                push_char(&mut p, '(');
                let inner = join_texts(vars, ALTERNATIVE);
                p.append(inner.as_str());
                push_char(&mut p, ')');
                assert(p@ == alternation(texts(vars@)));
                Some(p)
            },
            (None, Some(re)) => Some(re.clone()),
            _ => None,
        }
    }

    /// Whether `row` is this rule as a row of the definition table: the
    /// alternatives joined, the tags joined, everything else as it is.
    pub open spec fn as_row(&self, row: &Record) -> bool {
        &&& row.path@ == self.path@
        &&& row.normative == self.normative
        &&& row.versioned == self.versioned
        &&& row.generated == self.generated
        &&& row.module == self.module
        &&& row.arbitrary_content == OptBool::of(self.arbitrary_content)
        &&& row.tags@ == joined(texts(self.tags@), ALTERNATIVE)
        &&& row.indicativeness == self.indicativeness
        &&& match (row.variations, self.variations) {
            (Some(joint), Some(vars)) => joint@ == joined(texts(vars@), ALTERNATIVE),
            (None, None) => true,
            _ => false,
        }
        &&& match (row.regex, self.regex) {
            (Some(copy), Some(re)) => copy@ == re@,
            (None, None) => true,
            _ => false,
        }
        &&& row.description@ == self.description@
        &&& row.sample_content@ == self.sample_content@
    }

    /// The rule as a row of the definition table.
    pub fn to_record(&self) -> (row: Record)
        ensures
            self.as_row(&row),
    {
        let variations = match &self.variations {
            Some(vars) => Some(join_texts(vars, ALTERNATIVE)),
            None => None,
        };
        let regex = match &self.regex {
            Some(re) => Some(re.clone()),
            None => None,
        };
        Record {
            path: self.path.clone(),
            normative: self.normative,
            versioned: self.versioned,
            generated: self.generated,
            module: self.module,
            arbitrary_content: OptBool::from(self.arbitrary_content),
            tags: join_set(&self.tags, ALTERNATIVE),
            indicativeness: self.indicativeness,
            variations,
            regex,
            description: self.description.clone(),
            sample_content: self.sample_content.clone(),
        }
    }
}

impl Record {
    /// Whether the row describes a directory: its path ends in the separator.
    pub fn directory(&self) -> (dir: bool)
        ensures
            dir == is_dir_path(self.path@),
    {
        ends_with_separator(self.path.as_str())
    }

    /// Whether `rule` is this row made ready for use: tags and alternatives
    /// taken apart at [`ALTERNATIVE`], repeated tags dropped, the directory
    /// flag read off the path, everything else as it is.
    pub open spec fn as_rule(&self, rule: &Rec) -> bool {
        &&& rule.path@ == self.path@
        &&& rule.normative == self.normative
        &&& rule.versioned == self.versioned
        &&& rule.generated == self.generated
        &&& rule.module == self.module
        &&& rule.directory == is_dir_path(self.path@)
        &&& rule.arbitrary_content == self.arbitrary_content.flag()
        &&& texts(rule.tags@) == distinct(split(self.tags@, ALTERNATIVE))
        &&& rule.indicativeness == self.indicativeness
        &&& match (rule.variations, self.variations) {
            (Some(vars), Some(joint)) => texts(vars@) == split(joint@, ALTERNATIVE),
            (None, None) => true,
            _ => false,
        }
        &&& match (rule.regex, self.regex) {
            (Some(copy), Some(re)) => copy@ == re@,
            (None, None) => true,
            _ => false,
        }
        &&& rule.description@ == self.description@
        &&& rule.sample_content@ == self.sample_content@
    }

    /// The row as a rule ready for use.
    pub fn to_rec(&self) -> (rule: Rec)
        ensures
            self.as_rule(&rule),
    {
        let variations = match &self.variations {
            Some(joint) => Some(split_text(joint.as_str(), ALTERNATIVE)),
            None => None,
        };
        let regex = match &self.regex {
            Some(re) => Some(re.clone()),
            None => None,
        };
        Rec {
            path: self.path.clone(),
            normative: self.normative,
            versioned: self.versioned,
            generated: self.generated,
            module: self.module,
            directory: self.directory(),
            arbitrary_content: self.arbitrary_content.to_option(),
            tags: dedup_texts(split_text(self.tags.as_str(), ALTERNATIVE)),
            indicativeness: self.indicativeness,
            variations,
            regex,
            description: self.description.clone(),
            sample_content: self.sample_content.clone(),
        }
    }
}

/// The sum of the numbers.
pub open spec fn sum(numbers: Seq<nat>) -> nat
    decreases numbers.len(),
{
    if numbers.len() == 0 {
        0
    } else {
        sum(numbers.drop_last()) + numbers.last()
    }
}

/// A weight as its share of `total`, in parts of [`FULL_WEIGHT`], rounded
/// down. With nothing to share, the weight stays as it is.
pub open spec fn normalized_weight(weight: nat, total: nat) -> nat {
    if total == 0 {
        weight
    } else {
        weight * (FULL_WEIGHT as nat) / total
    }
}

/// Every weight as its share of `total`.
pub open spec fn normalized_weights(weights: Seq<nat>, total: nat) -> Seq<nat> {
    Seq::new(weights.len(), |i: int| normalized_weight(weights[i], total))
}

/// No number is larger than the sum.
pub proof fn lemma_sum_bounds_each(numbers: Seq<nat>, i: int)
    requires
        0 <= i < numbers.len(),
    ensures
        numbers[i] <= sum(numbers),
    decreases numbers.len(),
{
    if i < numbers.len() - 1 {
        lemma_sum_bounds_each(numbers.drop_last(), i);
    }
}

/// One weight and its share: the share times the total is at most the weight
/// times [`FULL_WEIGHT`], and less than one total short of it.
pub proof fn lemma_share(weight: nat, total: nat)
    requires
        total > 0,
    ensures
        normalized_weight(weight, total) * total <= weight * FULL_WEIGHT,
        normalized_weight(weight, total) * total + total > weight * FULL_WEIGHT,
{
    let scaled = weight * (FULL_WEIGHT as nat);
    vstd::arithmetic::div_mod::lemma_fundamental_div_mod(scaled as int, total as int);
    vstd::arithmetic::div_mod::lemma_mod_bound(scaled as int, total as int);
    assert(total * (scaled / total) == (scaled / total) * total) by (nonlinear_arith);
}

/// The shares of the first `count` weights, times the total, come to the
/// weights times [`FULL_WEIGHT`], less at most one total for each weight.
pub proof fn lemma_shares_prefix(weights: Seq<nat>, total: nat, count: int)
    requires
        total > 0,
        0 <= count <= weights.len(),
    ensures
        sum(normalized_weights(weights, total).take(count)) * total <= sum(weights.take(count))
            * FULL_WEIGHT,
        sum(normalized_weights(weights, total).take(count)) * total + count * total >= sum(
            weights.take(count),
        ) * FULL_WEIGHT,
    decreases count,
{
    let shares = normalized_weights(weights, total);
    if count > 0 {
        lemma_shares_prefix(weights, total, count - 1);
        lemma_share(weights[count - 1], total);
        assert(shares.take(count).drop_last() == shares.take(count - 1));
        assert(weights.take(count).drop_last() == weights.take(count - 1));
        let s0 = sum(shares.take(count - 1));
        let w0 = sum(weights.take(count - 1));
        let s = shares[count - 1];
        let w = weights[count - 1];
        assert(sum(shares.take(count)) == s0 + s);
        assert(sum(weights.take(count)) == w0 + w);
        assert((s0 + s) * total == s0 * total + s * total) by (nonlinear_arith);
        assert((w0 + w) * FULL_WEIGHT == w0 * FULL_WEIGHT + w * FULL_WEIGHT) by (nonlinear_arith);
        assert(count * total == (count - 1) * total + total) by (nonlinear_arith);
    } else {
        assert(shares.take(0).len() == 0);
        assert(weights.take(0).len() == 0);
    }
}

/// After normalization the weights of a standard add up to
/// [`FULL_WEIGHT`], less at most one part for each rule.
pub proof fn lemma_normalized_sum(weights: Seq<nat>)
    requires
        sum(weights) > 0,
    ensures
        FULL_WEIGHT - weights.len() <= sum(normalized_weights(weights, sum(weights)))
            <= FULL_WEIGHT,
{
    let total = sum(weights);
    let shares = normalized_weights(weights, total);
    let n = weights.len() as int;
    lemma_shares_prefix(weights, total, n);
    assert(shares.take(n) == shares);
    assert(weights.take(n) == weights);
    let s = sum(shares);
    assert(s * total <= total * FULL_WEIGHT);
    assert(s * total + n * total >= total * FULL_WEIGHT);
    assert(s <= FULL_WEIGHT) by (nonlinear_arith)
        requires
            s * total <= total * FULL_WEIGHT,
            total > 0,
    ;
    assert(s + n >= FULL_WEIGHT) by (nonlinear_arith)
        requires
            s * total + n * total >= total * FULL_WEIGHT,
            total > 0,
    ;
}

/// The index of the first weight that is not zero; the number of weights
/// where all are zero.
pub open spec fn first_positive(weights: Seq<nat>) -> int
    decreases weights.len(),
{
    if weights.len() == 0 {
        0
    } else {
        let before = first_positive(weights.drop_last());
        if before < weights.len() - 1 {
            before
        } else if weights.last() > 0 {
            weights.len() - 1
        } else {
            weights.len() as int
        }
    }
}

/// Every weight as its share of the sum of all, in parts of
/// [`FULL_WEIGHT`]: the share rounded down, and what the rounding left over
/// goes to the first weight that is not zero, so that the shares add up to
/// [`FULL_WEIGHT`]. Where all weights are zero they stay so.
pub open spec fn shares(weights: Seq<nat>) -> Seq<nat> {
    let total = sum(weights);
    let rounded = normalized_weights(weights, total);
    let first = first_positive(weights);
    if total == 0 || first >= weights.len() {
        weights
    } else {
        rounded.update(first, (rounded[first] + FULL_WEIGHT - sum(rounded)) as nat)
    }
}

/// The first weight that is not zero is one of the weights, unless they
/// add up to zero.
pub proof fn lemma_first_positive(weights: Seq<nat>)
    ensures
        0 <= first_positive(weights) <= weights.len(),
        first_positive(weights) < weights.len() ==> weights[first_positive(weights)] > 0,
        first_positive(weights) == weights.len() ==> sum(weights) == 0,
    decreases weights.len(),
{
    if weights.len() > 0 {
        lemma_first_positive(weights.drop_last());
    }
}

/// Replacing one number changes the sum by the difference.
pub proof fn lemma_sum_update(numbers: Seq<nat>, i: int, value: nat)
    requires
        0 <= i < numbers.len(),
    ensures
        sum(numbers.update(i, value)) + numbers[i] == sum(numbers) + value,
    decreases numbers.len(),
{
    let now = numbers.update(i, value);
    if i < numbers.len() - 1 {
        assert(now.drop_last() == numbers.drop_last().update(i, value));
        lemma_sum_update(numbers.drop_last(), i, value);
    } else {
        assert(now.drop_last() == numbers.drop_last());
    }
}

/// The shares of weights that do not add up to zero add up to
/// [`FULL_WEIGHT`], and none is more than that.
pub proof fn lemma_shares_sum(weights: Seq<nat>)
    requires
        sum(weights) > 0,
    ensures
        shares(weights).len() == weights.len(),
        sum(shares(weights)) == FULL_WEIGHT,
        forall|i: int| 0 <= i < weights.len() ==> (#[trigger] shares(weights)[i]) <= FULL_WEIGHT,
{
    let rounded = normalized_weights(weights, sum(weights));
    let first = first_positive(weights);
    lemma_first_positive(weights);
    lemma_normalized_sum(weights);
    let value = (rounded[first] + FULL_WEIGHT - sum(rounded)) as nat;
    lemma_sum_update(rounded, first, value);
    assert forall|i: int| 0 <= i < weights.len() implies (#[trigger] shares(weights)[i])
        <= FULL_WEIGHT by {
        lemma_sum_bounds_each(shares(weights), i);
    }
}

/// The weights of the rows, in their order.
pub open spec fn row_weights(rows: Seq<Record>) -> Seq<nat> {
    Seq::new(rows.len(), |i: int| rows[i].indicativeness as nat)
}

/// A standard: a name and its rules, ready for use.
#[derive(Debug, Clone)]
pub struct DirStd {
    pub name: String,
    pub records: Vec<Rec>,
}

/// A standard as its definition table holds it.
#[derive(Debug, Clone)]
pub struct DirStandard {
    pub name: String,
    pub records: Vec<Record>,
}

impl DirStd {
    /// The weights of the rules, in their order.
    pub open spec fn weights(&self) -> Seq<nat> {
        Seq::new(self.records@.len(), |i: int| self.records@[i].indicativeness as nat)
    }

    /// Whether the weights add up to [`FULL_WEIGHT`], or to less by at most
    /// one part for each rule.
    pub open spec fn is_normalized(&self) -> bool {
        sum(self.weights()) <= FULL_WEIGHT <= sum(self.weights()) + self.records@.len()
    }

    /// The sum of the weights of all rules.
    pub fn total_weight(&self) -> (total: u128)
        ensures
            total == sum(self.weights()),
    {
        let mut total: u128 = 0;
        let mut i: usize = 0;
        while i < self.records.len()
            invariant
                i <= self.records.len(),
                total == sum(self.weights().take(i as int)),
                total <= i * u32::MAX,
            decreases self.records.len() - i,
        {
            assert(self.weights().take(i + 1).drop_last() == self.weights().take(i as int));
            assert((i + 1) * u32::MAX == i * u32::MAX + u32::MAX) by (nonlinear_arith);
            assert(i * u32::MAX <= usize::MAX * u32::MAX) by (nonlinear_arith)
                requires
                    i <= usize::MAX,
            ;
            total = total + self.records[i].indicativeness as u128;
            i = i + 1;
        }
        assert(self.weights().take(self.records.len() as int) == self.weights());
        total
    }

    /// Whether the weights add up to [`FULL_WEIGHT`], or to less by at most
    /// one part for each rule.
    pub fn check_normalized(&self) -> (ok: bool)
        ensures
            ok == self.is_normalized(),
    {
        let total = self.total_weight();
        let count = self.records.len();
        total <= FULL_WEIGHT as u128 && total + count as u128 >= FULL_WEIGHT as u128
    }
}

impl DirStandard {
    /// The weights of the rows, in their order.
    pub open spec fn weights(&self) -> Seq<nat> {
        row_weights(self.records@)
    }

    /// Makes a standard of the rows of a definition table: every weight
    /// becomes its share of the sum of all weights, in parts of
    /// [`FULL_WEIGHT`]. The shares add up to [`FULL_WEIGHT`]. Where all
    /// weights are zero they stay so.
    pub fn from_records(name: String, records_raw: Vec<Record>) -> (std: DirStandard)
        ensures
            std.name == name,
            std.records@.len() == records_raw@.len(),
            forall|i: int|
                0 <= i < records_raw@.len() ==> #[trigger] std.records@[i] == (Record {
                    indicativeness: shares(row_weights(records_raw@))[i] as u32,
                    ..records_raw@[i]
                }),
            std.weights() == shares(row_weights(records_raw@)),
            sum(row_weights(records_raw@)) > 0 ==> sum(std.weights()) == FULL_WEIGHT,
            sum(row_weights(records_raw@)) == 0 ==> sum(std.weights()) == 0,
    {
        let ghost raw = row_weights(records_raw@);
        let mut total: u128 = 0;
        let mut first: usize = 0;
        let mut i: usize = 0;
        while i < records_raw.len()
            invariant
                i <= records_raw.len(),
                raw == row_weights(records_raw@),
                total == sum(raw.take(i as int)),
                total <= i * u32::MAX,
                first == first_positive(raw.take(i as int)),
                first <= i,
            decreases records_raw.len() - i,
        {
            assert(raw.take(i + 1).drop_last() == raw.take(i as int));
            assert((i + 1) * u32::MAX == i * u32::MAX + u32::MAX) by (nonlinear_arith);
            assert(i * u32::MAX <= usize::MAX * u32::MAX) by (nonlinear_arith)
                requires
                    i <= usize::MAX,
            ;
            let weight = records_raw[i].indicativeness;
            total = total + weight as u128;
            if first == i && weight == 0 {
                first = i + 1;
            }
            i = i + 1;
        }
        assert(raw.take(records_raw.len() as int) == raw);
        let ghost rounded = normalized_weights(raw, total as nat);
        let count = records_raw.len();
        let mut records: Vec<Record> = Vec::new();
        let mut given: u128 = 0;
        for record in it: records_raw
            invariant
                it.seq() == records_raw@,
                count == records_raw@.len(),
                raw == row_weights(records_raw@),
                rounded == normalized_weights(raw, total as nat),
                total == sum(raw),
                records@.len() == it.index(),
                given == sum(rounded.take(it.index() as int)),
                given <= it.index() * u32::MAX,
                forall|k: int|
                    0 <= k < it.index() ==> #[trigger] records@[k] == (Record {
                        indicativeness: rounded[k] as u32,
                        ..records_raw@[k]
                    }),
                forall|k: int|
                    0 <= k < it.index() ==> (#[trigger] records@[k]).indicativeness == rounded[k],
        {
            let ghost k = it.index() as int;
            let mut record = record;
            let w = record.indicativeness;
            proof {
                assert(raw[k] == w);
                lemma_sum_bounds_each(raw, k);
                if total > 0 {
                    lemma_share(w as nat, total as nat);
                    assert(normalized_weight(w as nat, total as nat) <= FULL_WEIGHT)
                        by (nonlinear_arith)
                        requires
                            normalized_weight(w as nat, total as nat) * total <= w * FULL_WEIGHT,
                            w <= total,
                            total > 0,
                    ;
                }
                assert(w * FULL_WEIGHT <= u32::MAX * FULL_WEIGHT) by (nonlinear_arith)
                    requires
                        w <= u32::MAX,
                ;
                assert(rounded.take(k + 1).drop_last() == rounded.take(k));
                assert((k + 1) * u32::MAX == k * u32::MAX + u32::MAX) by (nonlinear_arith);
                assert(k * u32::MAX <= usize::MAX * u32::MAX) by (nonlinear_arith)
                    requires
                        k <= usize::MAX,
                ;
            }
            if total > 0 {
                record.indicativeness = (w as u128 * FULL_WEIGHT as u128 / total) as u32;
            }
            given = given + record.indicativeness as u128;
            records.push(record);
        }
        proof {
            assert(rounded.take(rounded.len() as int) == rounded);
            lemma_first_positive(raw);
        }
        if total > 0 {
            proof {
                lemma_shares_sum(raw);
                lemma_normalized_sum(raw);
            }
            let left = FULL_WEIGHT as u128 - given;
            let ghost before = records@;
            let grown = records[first].indicativeness as u128 + left;
            assert(grown == shares(raw)[first as int]);
            records[first].indicativeness = grown as u32;
            assert forall|k: int| 0 <= k < records_raw@.len() implies #[trigger] records@[k] == (
            Record { indicativeness: shares(raw)[k] as u32, ..records_raw@[k] }) by {
                if k != first {
                    assert(records@[k] == before[k]);
                }
            }
        } else {
            assert forall|k: int| 0 <= k < records_raw@.len() implies #[trigger] records@[k] == (
            Record { indicativeness: shares(raw)[k] as u32, ..records_raw@[k] }) by {
                assert(rounded[k] == raw[k]);
            }
        }
        let std = DirStandard { name, records };
        proof {
            assert(std.weights() =~= shares(raw)) by {
                assert forall|k: int| 0 <= k < raw.len() implies std.weights()[k] == shares(
                    raw,
                )[k] by {
                    assert(std.records@[k].indicativeness == shares(raw)[k] as u32);
                    if total > 0 {
                        assert(shares(raw)[k] <= FULL_WEIGHT);
                    }
                }
            }
        }
        std
    }

    /// The standard with every row made a rule ready for use.
    pub fn to_dir_std(&self) -> (std: DirStd)
        ensures
            std.name@ == self.name@,
            std.records@.len() == self.records@.len(),
            forall|i: int|
                0 <= i < self.records@.len() ==> (#[trigger] self.records@[i]).as_rule(
                    &std.records@[i],
                ),
            std.weights() == self.weights(),
    {
        let mut records: Vec<Rec> = Vec::new();
        let mut i: usize = 0;
        while i < self.records.len()
            invariant
                i <= self.records.len(),
                records@.len() == i,
                forall|k: int|
                    0 <= k < i ==> (#[trigger] self.records@[k]).as_rule(&records@[k]),
            decreases self.records.len() - i,
        {
            records.push(self.records[i].to_rec());
            i = i + 1;
        }
        let std = DirStd { name: self.name.clone(), records };
        assert(std.weights() =~= self.weights()) by {
            assert forall|k: int| 0 <= k < self.records@.len() implies std.weights()[k]
                == self.weights()[k] by {
                assert(self.records@[k].as_rule(&std.records@[k]));
            }
        }
        std
    }
}

} // verus!
