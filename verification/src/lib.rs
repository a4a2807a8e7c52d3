//! Checks the layout of a project against directory standards.
//!
//! A standard is a list of weighted rules, each about one path: "a `src/`
//! directory is worth half of what makes this standard". The library
//!
//! - makes a standard ready ([`rules`]): its rules become a tree that
//!   mirrors the directories their paths name ([`tree`], [`builder`]), with
//!   one anchored pattern for every rule, made of the pattern of the rule and
//!   of the patterns of the rules above it;
//! - sorts the paths of a listing into the buckets of a coverage
//!   ([`classify`], [`checker`], [`coverage`]): a path lies in a module and
//!   is handed on to the check of that module, or it is ignored, or it counts
//!   and goes to every rule whose pattern matches it;
//! - rates a coverage ([`rating`]) and picks, among several standards, the
//!   one that fits a listing best ([`evaluation`]).
//!
//! Three conventions hold throughout. A path that names a directory ends in
//! `/`; patterns see it without that separator. The weight of a rule is a
//! whole number of parts of [`format::FULL_WEIGHT`]. A rating is a whole
//! number of parts of [`rating::FULL_FACTOR`], rounded down.
//!
//! Patterns are regular expressions of the `regex` crate. What a pattern
//! matches is taken from that crate as it is; everything built on it is
//! proved.

pub mod builder;
pub mod checker;
pub mod classify;
pub mod coverage;
pub mod data;
pub mod evaluation;
pub mod format;
pub mod listing;
pub mod order;
pub mod pattern;
pub mod rating;
pub mod rules;
pub mod stds;
pub mod text;
pub mod tree;

pub use checker::Checker;
pub use coverage::cover_listing;
pub use coverage::cover_listing_by_stds;
pub use coverage::cover_listing_with;
pub use coverage::Coverage;
pub use evaluation::best_fit;
pub use evaluation::rate_listing;
pub use evaluation::rate_listing_by_stds;
pub use evaluation::rate_listing_with;
pub use evaluation::Rating;
pub use evaluation::RatingCont;
