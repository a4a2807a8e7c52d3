use osh_dir_std::checker::Checker;
use osh_dir_std::coverage::cover_listing_with;
use osh_dir_std::format::{DirStd, Rec};
use osh_dir_std::pattern::RegexEq;
use osh_dir_std::rules::Rules;

fn rule(path: &str, weight: u32, variations: Option<Vec<&str>>, regex: Option<&str>) -> Rec {
    Rec {
        path: path.to_string(),
        normative: true,
        versioned: true,
        generated: false,
        module: false,
        directory: path.ends_with('/'),
        arbitrary_content: None,
        tags: Vec::new(),
        indicativeness: weight,
        variations: variations.map(|vars| vars.into_iter().map(String::from).collect()),
        regex: regex.map(String::from),
        description: String::new(),
        sample_content: String::new(),
    }
}

fn listing(paths: &[&str]) -> Vec<String> {
    paths.iter().map(|path| path.to_string()).collect()
}

fn sample_standard() -> DirStd {
    DirStd {
        name: "S".to_string(),
        records: vec![
            rule("src/", 500_000, Some(vec!["src"]), None),
            rule("docs/", 300_000, Some(vec!["docs"]), None),
            rule("readme", 200_000, None, Some(r"readme(\.md)?")),
        ],
    }
}

#[test]
fn end_to_end_scenario_buckets_and_rating() {
    let std = sample_standard();
    let rules = Rules::prepare(&std).expect("the standard is in order");
    let ignore = RegexEq::parse("^$").expect("a valid pattern");
    let paths = listing(&["src/", "src/main.rs", "docs/", "readme.md", "random.txt"]);
    let coverage = cover_listing_with(&paths, &ignore, &rules);
    assert_eq!(coverage.num_paths, 5);
    assert_eq!(coverage.matched[0], listing(&["src/"]));
    assert_eq!(coverage.matched[1], listing(&["docs/"]));
    assert_eq!(coverage.matched[2], listing(&["readme.md"]));
    assert_eq!(coverage.out, listing(&["src/main.rs", "random.txt"]));
    assert!(coverage.ignored.is_empty());
    assert!(coverage.arbitrary_content.is_empty());
    assert!(coverage.generated_content.is_empty());
    assert!(coverage.modules.is_empty());
    assert_eq!(coverage.rate(), 600_000);
}

#[test]
fn module_scenario_routes_path_to_child() {
    let mut parts = rule("parts/", 1_000_000, None, Some("parts/[^/]+"));
    parts.module = true;
    let std = DirStd { name: "M".to_string(), records: vec![parts] };
    let rules = Rules::prepare(&std).expect("the standard is in order");
    let ignore = RegexEq::parse("^$").expect("a valid pattern");
    let mut checker = Checker::new(&rules, &ignore);
    checker.cover("parts/widget-a/src/");
    let coverage = checker.coverage();
    assert_eq!(coverage.num_paths, 0);
    assert!(coverage.out.is_empty());
    assert!(coverage.ignored.is_empty());
    assert!(coverage.matched[0].is_empty());
    assert_eq!(coverage.modules.len(), 1);
    assert_eq!(coverage.modules[0].0, "parts/widget-a");
    let module = &coverage.modules[0].1;
    assert_eq!(module.num_paths, 1);
    assert_eq!(module.out, listing(&["src/"]));
}

#[test]
fn module_rule_below_a_plain_rule_claims_each_subdirectory() {
    let parts = rule("parts/", 500_000, Some(vec!["parts", "modules"]), None);
    let mut part = rule("parts/part/", 500_000, None, Some("[^/]+"));
    part.module = true;
    let std = DirStd { name: "M".to_string(), records: vec![part, parts] };
    let rules = Rules::prepare(&std).expect("the standard is in order");
    assert_eq!(rules.module_rgxs[0].as_str(), "^(?:(parts|modules)/[^/]+)/");
    let ignore = RegexEq::parse("^$").expect("a valid pattern");
    let paths = listing(&[
        "parts/",
        "parts/widget-a/",
        "parts/widget-a/src/",
        "Modules/widget-b/readme.md",
        "parts/widget-a/docs/x.md",
    ]);
    let coverage = cover_listing_with(&paths, &ignore, &rules);
    assert_eq!(coverage.num_paths, 2);
    assert_eq!(coverage.matched[0], listing(&["parts/widget-a/"]));
    assert_eq!(coverage.matched[1], listing(&["parts/"]));
    assert!(coverage.out.is_empty());
    let roots: Vec<&str> = coverage.modules.iter().map(|(root, _)| root.as_str()).collect();
    assert_eq!(roots, vec!["parts/widget-a", "Modules/widget-b"]);
    assert_eq!(coverage.modules[0].1.out, listing(&["src/", "docs/x.md"]));
    assert_eq!(coverage.modules[1].1.out, listing(&["readme.md"]));
}

#[test]
fn rules_below_rules_match_whole_paths() {
    let std = DirStd {
        name: "L".to_string(),
        records: vec![
            rule("docs/manual/", 300_000, Some(vec!["manual", "handbook"]), None),
            rule("docs/", 700_000, Some(vec!["docs", "doc"]), None),
        ],
    };
    let rules = Rules::prepare(&std).expect("the standard is in order");
    let ignore = RegexEq::parse("^$").expect("a valid pattern");
    let paths = listing(&["doc/", "Doc/Handbook/", "manual/", "docs/manual/intro.md"]);
    let coverage = cover_listing_with(&paths, &ignore, &rules);
    assert_eq!(coverage.matched[0], listing(&["Doc/Handbook/"]));
    assert_eq!(coverage.matched[1], listing(&["doc/"]));
    assert_eq!(coverage.out, listing(&["manual/", "docs/manual/intro.md"]));
    // 1000000 * 2 / (1000000 * 2 + 1 * 1000000)
    assert_eq!(coverage.rate(), 666_666);
}
