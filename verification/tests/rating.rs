use osh_dir_std::checker::Checker;
use osh_dir_std::coverage::{cover_paths, Coverage};
use osh_dir_std::format::{DirStd, Rec};
use osh_dir_std::pattern::RegexEq;
use osh_dir_std::rating::FULL_FACTOR;
use osh_dir_std::rules::Rules;

fn plain(path: &str, weight: u32, variations: &[&str]) -> Rec {
    Rec {
        path: path.to_string(),
        normative: true,
        versioned: true,
        generated: false,
        module: false,
        directory: path.ends_with('/'),
        arbitrary_content: None,
        tags: Vec::new(),
        indicativeness: weight,
        variations: Some(variations.iter().map(|v| v.to_string()).collect()),
        regex: None,
        description: String::new(),
        sample_content: String::new(),
    }
}

fn modular() -> DirStd {
    let mut parts = plain("parts/", 100_000, &[]);
    parts.variations = None;
    parts.regex = Some("parts/[^/]+".to_string());
    parts.module = true;
    DirStd {
        name: "modular".to_string(),
        records: vec![
            plain("src/", 400_000, &["src"]),
            plain("docs/", 300_000, &["docs"]),
            plain("readme", 200_000, &["readme"]),
            parts,
        ],
    }
}

fn listing(paths: &[&str]) -> Vec<String> {
    paths.iter().map(|path| path.to_string()).collect()
}

fn nothing() -> RegexEq {
    RegexEq::parse("^$").expect("a valid pattern")
}

fn rate(std: &DirStd, paths: &[&str]) -> u32 {
    let rules = Rules::prepare(std).expect("the standard is in order");
    let ignore = nothing();
    let coverage = cover_paths(Checker::new(&rules, &ignore), &listing(paths));
    coverage.rate()
}

#[test]
fn rate_is_zero_where_no_rule_matched() {
    let std = modular();
    assert_eq!(rate(&std, &["a.txt", "b.txt", "c/"]), 0);
    assert_eq!(rate(&std, &[]), 0);
    assert_eq!(Coverage::new(&std).rate(), 0);
}

#[test]
fn rate_is_zero_where_only_modules_matched() {
    let std = modular();
    assert_eq!(rate(&std, &["x.txt", "parts/a/src/", "parts/a/docs/", "parts/a/readme"]), 0);
}

#[test]
fn rate_is_full_where_everything_is_accounted_for() {
    let std = modular();
    assert_eq!(rate(&std, &["src/", "docs/", "readme", "parts/a"]), FULL_FACTOR);
    assert_eq!(rate(&std, &["readme"]), FULL_FACTOR);
}

#[test]
fn rate_weighs_matched_rules_against_unaccounted_files() {
    let std = modular();
    // 400000 * 4 / (400000 * 4 + 1 * 1000000)
    assert_eq!(rate(&std, &["src/", "random.txt"]), 615_384);
    // 900000 * 4 / (900000 * 4 + 2 * 1000000)
    assert_eq!(rate(&std, &["src/", "docs/", "readme", "x.txt", "y.txt"]), 642_857);
}

#[test]
fn rate_counts_a_rule_once_however_many_paths_it_matched() {
    let std = modular();
    assert_eq!(rate(&std, &["src/", "SRC/", "Src", "random.txt"]), 615_384);
}

#[test]
fn rate_does_not_count_unaccounted_directories() {
    let std = modular();
    assert_eq!(rate(&std, &["src/", "junk/", "more/junk/"]), FULL_FACTOR);
    assert_eq!(rate(&std, &["src/", "junk/", "junk/file"]), 615_384);
}

#[test]
fn rate_averages_over_modules_by_their_number_of_paths() {
    let std = modular();
    // this level: 2 paths at 615384; the module: 5 paths at 642857
    assert_eq!(
        rate(
            &std,
            &[
                "src/",
                "random.txt",
                "parts/a/src/",
                "parts/a/docs/",
                "parts/a/readme",
                "parts/a/x.txt",
                "parts/a/y.txt",
            ]
        ),
        635_007
    );
}

#[test]
fn rate_is_pulled_down_by_a_module_that_matches_nothing() {
    let std = modular();
    assert_eq!(rate(&std, &["src/", "parts/b/junk.txt"]), 500_000);
    assert_eq!(rate(&std, &["src/", "parts/b/junk.txt", "parts/b/more.txt", "parts/b/x"]), 250_000);
}

#[test]
fn rate_takes_nested_modules_through_their_parent_module() {
    let std = modular();
    // parts/a: own level 1 path at full; parts/a/parts/b: 1 path at zero -> 500000
    // this level: 1 path at full; parts/a weighs 1 path at 500000 -> 750000
    assert_eq!(rate(&std, &["src/", "parts/a/src/", "parts/a/parts/b/junk"]), 750_000);
}

#[test]
fn matched_rules_and_out_files_feed_the_rating() {
    let std = modular();
    let rules = Rules::prepare(&std).expect("the standard is in order");
    let ignore = nothing();
    let coverage = cover_paths(
        Checker::new(&rules, &ignore),
        &listing(&["src/", "readme", "a", "b/", "c"]),
    );
    assert_eq!(coverage.matched_rules(), (600_000, true));
    assert_eq!(coverage.out_files(), 2);
    let empty = Coverage::new(&std);
    assert_eq!(empty.matched_rules(), (0, false));
    assert_eq!(empty.out_files(), 0);
}
