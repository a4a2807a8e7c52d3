use osh_dir_std::format::{DirStd, Rec};
use osh_dir_std::pattern::RegexEq;
use osh_dir_std::rules::{
    create_arbitrary_content_rgxs, create_generated_content_rgxs, create_module_rgxs,
    derive_patterns, holds_pattern, shape, Derived, Rules,
};
use osh_dir_std::tree::{create, BuildError};

fn plain(path: &str, variations: &[&str]) -> Rec {
    Rec {
        path: path.to_string(),
        normative: true,
        versioned: true,
        generated: false,
        module: false,
        directory: path.ends_with('/'),
        arbitrary_content: None,
        tags: Vec::new(),
        indicativeness: 1,
        variations: Some(variations.iter().map(|v| v.to_string()).collect()),
        regex: None,
        description: String::new(),
        sample_content: String::new(),
    }
}

fn flagged() -> DirStd {
    let mut build = plain("build/", &["build"]);
    build.generated = true;
    let mut thirdparty = plain("thirdparty/", &["thirdparty"]);
    thirdparty.arbitrary_content = Some(true);
    let mut parts = plain("parts/", &[]);
    parts.variations = None;
    parts.regex = Some("parts/[^/]+".to_string());
    parts.module = true;
    let mut log = plain("gen.log", &["gen.log"]);
    log.generated = true;
    let mut closed = plain("closed/", &["closed"]);
    closed.arbitrary_content = Some(false);
    let mut notes = plain("notes", &["notes"]);
    notes.arbitrary_content = Some(true);
    DirStd {
        name: "flagged".to_string(),
        records: vec![build, thirdparty, parts, log, closed, notes, plain("src/", &["src"])],
    }
}

fn texts(list: &[RegexEq]) -> Vec<String> {
    list.iter().map(|pattern| pattern.as_str().to_string()).collect()
}

#[test]
fn shape_widens_or_turns_into_a_prefix() {
    assert_eq!(shape(Derived::Module, "^(?:a)$"), "^(?:a)/");
    assert_eq!(shape(Derived::Arbitrary, "^(?:a)$"), "^(?:a)/.*$");
    assert_eq!(shape(Derived::Generated, "^(?:a)$"), "^(?:a)/.*$");
    assert_eq!(shape(Derived::Module, "$"), "/");
}

#[test]
fn module_patterns_match_the_root_as_a_prefix() {
    let std = flagged();
    let tree = create(&std).expect("the standard is in order");
    let list = create_module_rgxs(&tree, &std).expect("the patterns compile");
    assert_eq!(texts(&list), vec!["^(?:parts/[^/]+)/".to_string()]);
    assert!(list[0].is_match("parts/widget-a/src"));
    assert!(!list[0].is_match("parts/widget-a"));
}

#[test]
fn arbitrary_content_patterns_come_from_flags_set_to_true() {
    let std = flagged();
    let tree = create(&std).expect("the standard is in order");
    let list = create_arbitrary_content_rgxs(&tree, &std).expect("the patterns compile");
    assert_eq!(
        texts(&list),
        vec!["^(?:(thirdparty))/.*$".to_string(), "^(?:(notes))$".to_string()]
    );
    assert!(list[0].is_match("thirdparty/lib/x.c"));
    assert!(!list[0].is_match("thirdparty"));
}

#[test]
fn generated_content_patterns_widen_directories_only() {
    let std = flagged();
    let tree = create(&std).expect("the standard is in order");
    let list = create_generated_content_rgxs(&tree, &std).expect("the patterns compile");
    assert_eq!(
        texts(&list),
        vec!["^(?:(build))/.*$".to_string(), "^(?:(gen.log))$".to_string()]
    );
}

#[test]
fn module_patterns_hold_no_text_twice() {
    let mut first = plain("x/", &["m"]);
    first.module = true;
    let mut second = plain("y/", &["m"]);
    second.module = true;
    let mut third = plain("z/", &["n"]);
    third.module = true;
    let std = DirStd { name: "twice".to_string(), records: vec![first, second, third] };
    let tree = create(&std).expect("the standard is in order");
    let modules = derive_patterns(&tree, &std, Derived::Module).expect("the patterns compile");
    assert_eq!(texts(&modules), vec!["^(?:(m))/".to_string(), "^(?:(n))/".to_string()]);
}

#[test]
fn other_lists_keep_repeated_texts() {
    let mut first = plain("x/", &["m"]);
    first.generated = true;
    let mut second = plain("y/", &["m"]);
    second.generated = true;
    let std = DirStd { name: "twice".to_string(), records: vec![first, second] };
    let tree = create(&std).expect("the standard is in order");
    let generated = derive_patterns(&tree, &std, Derived::Generated).expect("the patterns compile");
    assert_eq!(texts(&generated).len(), 2);
}

#[test]
fn holds_pattern_goes_by_the_text() {
    let list = vec![
        RegexEq::parse("^a$").expect("a valid pattern"),
        RegexEq::parse("^b$").expect("a valid pattern"),
    ];
    assert!(holds_pattern(&list, "^b$"));
    assert!(!holds_pattern(&list, "b"));
    assert!(!holds_pattern(&Vec::new(), "^a$"));
}

#[test]
fn prepare_gathers_tree_and_lists() {
    let std = flagged();
    let rules = Rules::prepare(&std).expect("the standard is in order");
    assert_eq!(rules.std.name, "flagged");
    assert_eq!(rules.tree.rec_nodes.len(), 7);
    assert_eq!(rules.module_rgxs.len(), 1);
    assert_eq!(rules.arbitrary_content_rgxs.len(), 2);
    assert_eq!(rules.generated_content_rgxs.len(), 2);
}

#[test]
fn prepare_reports_what_is_wrong_with_the_standard() {
    let mut bare = plain("a", &["a"]);
    bare.variations = None;
    let std = DirStd { name: "bad".to_string(), records: vec![plain("b", &["b"]), bare] };
    assert_eq!(Rules::prepare(&std).err(), Some(BuildError::MissingPattern { record: 1 }));

    let std = DirStd {
        name: "bad".to_string(),
        records: vec![plain("a/b", &["b"]), plain("a/b/", &["b"])],
    };
    assert_eq!(Rules::prepare(&std).err(), Some(BuildError::DuplicatePath { record: 1 }));

    let mut broken = plain("c", &[]);
    broken.variations = None;
    broken.regex = Some("[".to_string());
    let std = DirStd { name: "bad".to_string(), records: vec![broken] };
    assert_eq!(Rules::prepare(&std).err(), Some(BuildError::MalformedPattern { record: 0 }));
}

#[test]
fn only_a_plain_yes_adds_an_area_of_arbitrary_content() {
    let mut res = plain("res/", &["res"]);
    res.arbitrary_content = Some(true);
    let mut x = plain("x", &["x"]);
    x.arbitrary_content = Some(false);
    let std = DirStd { name: "areas".to_string(), records: vec![res, x, plain("y", &["y"])] };
    let tree = create(&std).expect("the standard is in order");
    let list = create_arbitrary_content_rgxs(&tree, &std).expect("the patterns compile");
    assert_eq!(texts(&list), vec!["^(?:(res))/.*$".to_string()]);
    assert!(list[0].folds_case());
    assert!(list[0].is_match("RES/logo.png"));
}
