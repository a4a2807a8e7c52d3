use osh_dir_std::checker::Checker;
use osh_dir_std::classify::{claim_module, matches_any, Verdict};
use osh_dir_std::coverage::{cover_listing, cover_listing_by_stds, cover_paths, Coverage, Error};
use osh_dir_std::data::Catalog;
use osh_dir_std::evaluation::BestFitError;
use osh_dir_std::format::{DirStd, Rec};
use osh_dir_std::pattern::RegexEq;
use osh_dir_std::rules::Rules;
use osh_dir_std::stds::Standards;

fn plain(path: &str, weight: u32, variations: &[&str]) -> Rec {
    Rec {
        path: path.to_string(),
        normative: true,
        versioned: true,
        generated: false,
        module: false,
        directory: path.ends_with('/'),
        arbitrary_content: None,
        tags: Vec::new(),
        indicativeness: weight,
        variations: Some(variations.iter().map(|v| v.to_string()).collect()),
        regex: None,
        description: String::new(),
        sample_content: String::new(),
    }
}

fn with_regex(path: &str, weight: u32, regex: &str) -> Rec {
    let mut rule = plain(path, weight, &[]);
    rule.variations = None;
    rule.regex = Some(regex.to_string());
    rule
}

fn rich() -> DirStd {
    let mut build = plain("build/", 100_000, &["build"]);
    build.generated = true;
    let mut thirdparty = plain("thirdparty/", 100_000, &["thirdparty"]);
    thirdparty.arbitrary_content = Some(true);
    let mut parts = with_regex("parts/", 100_000, "parts/[^/]+");
    parts.module = true;
    let mut log = plain("gen.log", 50_000, &["gen.log"]);
    log.generated = true;
    let mut notes = plain("notes", 50_000, &["notes"]);
    notes.arbitrary_content = Some(true);
    DirStd {
        name: "rich".to_string(),
        records: vec![
            plain("src/", 400_000, &["src"]),
            build,
            thirdparty,
            parts,
            with_regex("readme", 200_000, r"readme(\.md)?"),
            log,
            notes,
        ],
    }
}

fn small() -> DirStd {
    DirStd {
        name: "small".to_string(),
        records: vec![plain("src/", 500_000, &["src"]), plain("docs/", 500_000, &["docs"])],
    }
}

fn listing(paths: &[&str]) -> Vec<String> {
    paths.iter().map(|path| path.to_string()).collect()
}

fn dotfiles() -> RegexEq {
    RegexEq::parse(r"(^|.*/)(\..+)$").expect("a valid pattern")
}

fn cover_all(rules: &Rules, ignore: &RegexEq, paths: &[&str]) -> Vec<String> {
    let mut checker = Checker::new(rules, ignore);
    for path in paths {
        checker.cover(path);
    }
    let coverage = checker.coverage();
    let mut lines = Vec::new();
    describe(&coverage, "", &mut lines);
    lines
}

fn describe(coverage: &Coverage, at: &str, lines: &mut Vec<String>) {
    lines.push(format!("{at}num_paths={}", coverage.num_paths));
    for (index, bucket) in coverage.matched.iter().enumerate() {
        if !bucket.is_empty() {
            lines.push(format!("{at}in[{index}]={bucket:?}"));
        }
    }
    for (name, bucket) in [
        ("ignored", &coverage.ignored),
        ("arbitrary", &coverage.arbitrary_content),
        ("generated", &coverage.generated_content),
        ("out", &coverage.out),
    ] {
        if !bucket.is_empty() {
            lines.push(format!("{at}{name}={bucket:?}"));
        }
    }
    for (root, module) in &coverage.modules {
        describe(module, &format!("{at}{root}: "), lines);
    }
}

#[test]
fn new_checker_has_seen_nothing() {
    let std = rich();
    let rules = Rules::prepare(&std).expect("the standard is in order");
    let ignore = dotfiles();
    let coverage = Checker::new(&rules, &ignore).coverage();
    assert_eq!(coverage.std.name, "rich");
    assert_eq!(coverage.num_paths, 0);
    assert_eq!(coverage.matched.len(), 7);
    assert!(coverage.matched.iter().all(|bucket| bucket.is_empty()));
    assert!(coverage.ignored.is_empty() && coverage.out.is_empty());
    assert!(coverage.modules.is_empty());
    let fresh = Coverage::new(&std);
    assert_eq!(fresh.matched.len(), 7);
    assert_eq!(fresh.num_paths, 0);
}

#[test]
fn classify_tells_the_three_fates() {
    let std = rich();
    let rules = Rules::prepare(&std).expect("the standard is in order");
    let ignore = dotfiles();
    let checker = Checker::new(&rules, &ignore);
    match checker.classify("parts/widget-a/src/main.c") {
        Verdict::Module { key, rest } => {
            assert_eq!(key, "parts/widget-a");
            assert_eq!(rest, "src/main.c");
        }
        _ => panic!("a path below a module root"),
    }
    assert!(matches!(checker.classify(".gitignore"), Verdict::Ignored));
    assert!(matches!(checker.classify("src/.hidden"), Verdict::Ignored));
    match checker.classify("src/") {
        Verdict::Viable { records, arbitrary, generated } => {
            assert_eq!(records, vec![0]);
            assert!(!arbitrary);
            assert!(!generated);
        }
        _ => panic!("a path that counts"),
    }
    match checker.classify("thirdparty/zlib/zlib.h") {
        Verdict::Viable { records, arbitrary, generated } => {
            assert!(records.is_empty());
            assert!(arbitrary);
            assert!(!generated);
        }
        _ => panic!("a path that counts"),
    }
    match checker.classify("nowhere.txt") {
        Verdict::Viable { records, arbitrary, generated } => {
            assert!(records.is_empty());
            assert!(!arbitrary);
            assert!(!generated);
        }
        _ => panic!("a path that counts"),
    }
}

#[test]
fn module_test_comes_before_the_ignore_test() {
    let std = rich();
    let rules = Rules::prepare(&std).expect("the standard is in order");
    let ignore = dotfiles();
    let lines = cover_all(&rules, &ignore, &["parts/widget-a/.git/"]);
    assert_eq!(
        lines,
        vec!["num_paths=0", "parts/widget-a: num_paths=0", "parts/widget-a: ignored=[\".git/\"]"]
    );
}

#[test]
fn ignored_paths_do_not_count() {
    let std = rich();
    let rules = Rules::prepare(&std).expect("the standard is in order");
    let ignore = dotfiles();
    let lines = cover_all(&rules, &ignore, &[".git/", "src/", ".gitignore"]);
    assert_eq!(
        lines,
        vec!["num_paths=1", "in[0]=[\"src/\"]", "ignored=[\".git/\", \".gitignore\"]"]
    );
}

#[test]
fn patterns_see_directories_without_their_separator() {
    let std = rich();
    let rules = Rules::prepare(&std).expect("the standard is in order");
    let ignore = dotfiles();
    let lines = cover_all(&rules, &ignore, &["src", "src/", "SRC/", "src//"]);
    assert_eq!(
        lines,
        vec!["num_paths=4", "in[0]=[\"src\", \"src/\", \"SRC/\"]", "out=[\"src//\"]"]
    );
}

#[test]
fn generated_content_is_marked_whatever_else_matches() {
    let std = rich();
    let rules = Rules::prepare(&std).expect("the standard is in order");
    let ignore = dotfiles();
    let lines = cover_all(&rules, &ignore, &["gen.log", "build/", "build/out.bin", "src/"]);
    assert_eq!(
        lines,
        vec![
            "num_paths=4",
            "in[0]=[\"src/\"]",
            "in[1]=[\"build/\"]",
            "in[5]=[\"gen.log\"]",
            "generated=[\"gen.log\", \"build/out.bin\"]",
        ]
    );
}

#[test]
fn arbitrary_content_is_looked_for_only_where_no_rule_matches() {
    let std = rich();
    let rules = Rules::prepare(&std).expect("the standard is in order");
    let ignore = dotfiles();
    let lines =
        cover_all(&rules, &ignore, &["notes", "thirdparty/", "thirdparty/zlib/", "thirdparty/a.c"]);
    assert_eq!(
        lines,
        vec![
            "num_paths=4",
            "in[2]=[\"thirdparty/\"]",
            "in[6]=[\"notes\"]",
            "arbitrary=[\"thirdparty/zlib/\", \"thirdparty/a.c\"]",
        ]
    );
}

#[test]
fn a_path_may_lie_in_arbitrary_and_generated_content_at_once() {
    let mut both = plain("vendor/", 1_000_000, &["vendor"]);
    both.arbitrary_content = Some(true);
    both.generated = true;
    let std = DirStd { name: "both".to_string(), records: vec![both] };
    let rules = Rules::prepare(&std).expect("the standard is in order");
    let ignore = dotfiles();
    let lines = cover_all(&rules, &ignore, &["vendor/x.c"]);
    assert_eq!(
        lines,
        vec!["num_paths=1", "arbitrary=[\"vendor/x.c\"]", "generated=[\"vendor/x.c\"]"]
    );
}

#[test]
fn overlapping_rules_all_get_the_path() {
    let std = DirStd {
        name: "layers".to_string(),
        records: vec![
            with_regex("any", 500_000, ".*"),
            with_regex("readme", 500_000, "readme"),
        ],
    };
    let rules = Rules::prepare(&std).expect("the standard is in order");
    let ignore = dotfiles();
    let lines = cover_all(&rules, &ignore, &["readme", "other"]);
    assert_eq!(
        lines,
        vec!["num_paths=2", "in[0]=[\"readme\", \"other\"]", "in[1]=[\"readme\"]"]
    );
}

#[test]
fn modules_gather_their_paths_under_their_root() {
    let std = rich();
    let rules = Rules::prepare(&std).expect("the standard is in order");
    let ignore = dotfiles();
    let lines = cover_all(
        &rules,
        &ignore,
        &[
            "parts/",
            "parts/widget-a/",
            "parts/widget-a/src/",
            "parts/widget-b/junk.txt",
            "parts/widget-a/readme.md",
            "parts/widget-a/parts/inner/deep.txt",
            "random.txt",
        ],
    );
    assert_eq!(
        lines,
        vec![
            "num_paths=3",
            "in[3]=[\"parts/widget-a/\"]",
            "out=[\"parts/\", \"random.txt\"]",
            "parts/widget-a: num_paths=2",
            "parts/widget-a: in[0]=[\"src/\"]",
            "parts/widget-a: in[4]=[\"readme.md\"]",
            "parts/widget-a: parts/inner: num_paths=1",
            "parts/widget-a: parts/inner: out=[\"deep.txt\"]",
            "parts/widget-b: num_paths=1",
            "parts/widget-b: out=[\"junk.txt\"]",
        ]
    );
}

#[test]
fn module_dirs_lists_what_module_rules_matched() {
    let std = rich();
    let rules = Rules::prepare(&std).expect("the standard is in order");
    let ignore = dotfiles();
    let paths = listing(&["parts/widget-a/", "src/", "parts/widget-b", "parts/widget-a/src/"]);
    let coverage = cover_paths(Checker::new(&rules, &ignore), &paths);
    assert_eq!(coverage.module_dirs(), listing(&["parts/widget-a/", "parts/widget-b"]));
}

#[test]
fn find_module_goes_by_the_root() {
    let std = rich();
    let rules = Rules::prepare(&std).expect("the standard is in order");
    let ignore = dotfiles();
    let mut checker = Checker::new(&rules, &ignore);
    checker.cover("parts/a/x");
    checker.cover("parts/b/x");
    assert_eq!(checker.find_module("parts/b"), Some(1));
    assert_eq!(checker.find_module("parts/a"), Some(0));
    assert_eq!(checker.find_module("parts/c"), None);
    assert_eq!(checker.find_module("parts/a/"), None);
}

#[test]
fn count_viable_fills_the_buckets_it_is_told() {
    let std = small();
    let rules = Rules::prepare(&std).expect("the standard is in order");
    let ignore = dotfiles();
    let mut checker = Checker::new(&rules, &ignore);
    checker.count_viable("a", &vec![1, 0], false, true);
    checker.count_viable("b", &Vec::new(), true, false);
    checker.count_viable("c", &Vec::new(), false, false);
    let coverage = checker.coverage();
    assert_eq!(coverage.num_paths, 3);
    assert_eq!(coverage.matched[0], listing(&["a"]));
    assert_eq!(coverage.matched[1], listing(&["a"]));
    assert_eq!(coverage.generated_content, listing(&["a"]));
    assert_eq!(coverage.arbitrary_content, listing(&["b"]));
    assert_eq!(coverage.out, listing(&["c"]));
}

#[test]
fn claim_module_takes_the_first_pattern_that_finds_something() {
    let patterns = vec![
        RegexEq::parse_ignoring_case("^x*").expect("a valid pattern"),
        RegexEq::parse_ignoring_case("^(?:mod/[^/]+)/").expect("a valid pattern"),
        RegexEq::parse_ignoring_case("^(?:mod)/").expect("a valid pattern"),
    ];
    assert_eq!(
        claim_module(&patterns, "mod/a/b/"),
        Some(("mod/a".to_string(), "b/".to_string()))
    );
    assert_eq!(claim_module(&patterns, "mod/a"), Some(("mod".to_string(), "a".to_string())));
    assert_eq!(claim_module(&patterns, "other/a"), None);
    assert_eq!(claim_module(&Vec::new(), "mod/a/b"), None);
}

#[test]
fn matches_any_asks_every_pattern() {
    let patterns = vec![
        RegexEq::parse_ignoring_case("^a$").expect("a valid pattern"),
        RegexEq::parse_ignoring_case("^b$").expect("a valid pattern"),
    ];
    assert!(matches_any(&patterns, "b"));
    assert!(matches_any(&patterns, "B"));
    assert!(!matches_any(&patterns, "c"));
    assert!(!matches_any(&Vec::new(), "a"));
}

#[test]
fn order_of_paths_does_not_change_what_lands_where() {
    let std = rich();
    let rules = Rules::prepare(&std).expect("the standard is in order");
    let ignore = dotfiles();
    let forth = listing(&["src/", "x.txt", "build/a", ".git/", "readme"]);
    let back = listing(&["readme", ".git/", "build/a", "x.txt", "src/"]);
    let one = cover_paths(Checker::new(&rules, &ignore), &forth);
    let other = cover_paths(Checker::new(&rules, &ignore), &back);
    assert_eq!(one.num_paths, other.num_paths);
    assert_eq!(one.matched, other.matched);
    assert_eq!(one.out, other.out);
    assert_eq!(one.ignored, other.ignored);
    assert_eq!(one.generated_content, other.generated_content);
}

#[test]
fn cover_listing_checks_every_standard() {
    let rich_std = rich();
    let small_std = small();
    let catalog = vec![
        Rules::prepare(&rich_std).expect("the standard is in order"),
        Rules::prepare(&small_std).expect("the standard is in order"),
    ];
    let ignore = dotfiles();
    let paths = listing(&["src/", "docs/", "readme", ".git/"]);
    let coverages = cover_listing(&paths, &ignore, &catalog);
    assert_eq!(coverages.len(), 2);
    assert_eq!(coverages[0].std.name, "rich");
    assert_eq!(coverages[0].num_paths, 3);
    assert_eq!(coverages[0].out, listing(&["docs/"]));
    assert_eq!(coverages[1].std.name, "small");
    assert_eq!(coverages[1].matched[1], listing(&["docs/"]));
    assert_eq!(coverages[1].out, listing(&["readme"]));
    assert_eq!(coverages[1].ignored, listing(&[".git/"]));
    let checkers = Checker::new_all(&catalog, &ignore);
    assert_eq!(checkers.len(), 2);
    assert_eq!(checkers[1].rules.std.name, "small");
}

#[test]
fn cover_listing_by_stds_follows_the_choice() {
    let rich_std = rich();
    let small_std = small();
    let catalog = Catalog {
        stds: vec![
            Rules::prepare(&rich_std).expect("the standard is in order"),
            Rules::prepare(&small_std).expect("the standard is in order"),
        ],
        default_std_name: "small".to_string(),
    };
    let ignore = dotfiles();
    let paths = listing(&["src/", "docs/", "docs/a.txt"]);

    let by_default =
        cover_listing_by_stds(&paths, &ignore, &catalog, &Standards::Default).expect("no failure");
    assert_eq!(by_default.len(), 1);
    assert_eq!(by_default[0].std.name, "small");

    let named = Standards::Specific("rich".to_string());
    let by_name = cover_listing_by_stds(&paths, &ignore, &catalog, &named).expect("no failure");
    assert_eq!(by_name.len(), 1);
    assert_eq!(by_name[0].std.name, "rich");

    let all = cover_listing_by_stds(&paths, &ignore, &catalog, &Standards::All).expect("no failure");
    assert_eq!(all.len(), 2);
    assert_eq!(all[0].std.name, "rich");
    assert_eq!(all[1].std.name, "small");

    let best =
        cover_listing_by_stds(&paths, &ignore, &catalog, &Standards::BestFit).expect("no failure");
    assert_eq!(best.len(), 1);
    assert_eq!(best[0].std.name, "rich");
    assert_eq!(best[0].rate(), 736_842);
    assert_eq!(all[1].rate(), 666_666);
    assert_eq!(best[0].out, listing(&["docs/", "docs/a.txt"]));
}

#[test]
fn best_fit_of_an_empty_catalog_fails() {
    let catalog = Catalog { stds: Vec::new(), default_std_name: "none".to_string() };
    let ignore = dotfiles();
    let outcome = cover_listing_by_stds(&Vec::new(), &ignore, &catalog, &Standards::BestFit);
    assert_eq!(outcome.err(), Some(Error::BestFitError(BestFitError::NoneViable)));
    let all = cover_listing_by_stds(&Vec::new(), &ignore, &catalog, &Standards::All);
    assert!(all.expect("no failure").is_empty());
}

#[test]
fn rules_ignore_letter_case_and_the_ignore_pattern_keeps_it() {
    let std = small();
    let rules = Rules::prepare(&std).expect("the standard is in order");
    let ignore = RegexEq::parse("^README$").expect("a valid pattern");
    let lines = cover_all(&rules, &ignore, &["README", "readme", "Docs/", "DOCS"]);
    assert_eq!(
        lines,
        vec![
            "num_paths=3",
            "in[1]=[\"Docs/\", \"DOCS\"]",
            "ignored=[\"README\"]",
            "out=[\"readme\"]",
        ]
    );
}

#[test]
fn every_path_counts_or_is_ignored_somewhere() {
    let std = rich();
    let rules = Rules::prepare(&std).expect("the standard is in order");
    let ignore = dotfiles();
    let paths = listing(&[
        "src/",
        ".git/",
        "parts/a/src/",
        "parts/a/.hidden",
        "parts/a/parts/b/x",
        "parts/c/y",
        "other",
    ]);
    let coverage = cover_paths(Checker::new(&rules, &ignore), &paths);
    fn taken(coverage: &Coverage) -> usize {
        coverage.num_paths
            + coverage.ignored.len()
            + coverage.modules.iter().map(|(_, module)| taken(module)).sum::<usize>()
    }
    assert_eq!(taken(&coverage), paths.len());
    assert_eq!(coverage.num_paths + coverage.ignored.len(), 3);
}
