use osh_dir_std::format::{DirStd, Rec};
use osh_dir_std::pattern::RegexEq;
use osh_dir_std::builder::{attach, measure, segments_of, walk};
use osh_dir_std::tree::{create, BuildError, Node, Tree};

fn strings(items: &[&str]) -> Vec<String> {
    items.iter().map(|item| item.to_string()).collect()
}

fn rule(path: &str, variations: Option<&[&str]>, regex: Option<&str>) -> Rec {
    Rec {
        path: path.to_string(),
        normative: true,
        versioned: true,
        generated: false,
        module: false,
        directory: path.ends_with('/'),
        arbitrary_content: None,
        tags: Vec::new(),
        indicativeness: 1,
        variations: variations.map(strings),
        regex: regex.map(String::from),
        description: String::new(),
        sample_content: String::new(),
    }
}

fn standard(records: Vec<Rec>) -> DirStd {
    DirStd { name: "t".to_string(), records }
}

fn layered() -> DirStd {
    standard(vec![
        rule("docs/manual/", Some(&["manual", "handbook"]), None),
        rule("docs/", Some(&["docs", "doc"]), None),
        rule("readme", None, Some(r"readme(\.md)?")),
        rule("res/img/logo", Some(&["logo.png"]), None),
    ])
}

fn pattern_of(tree: &Tree, leaf: usize) -> String {
    let node = &tree.nodes[tree.rec_nodes[leaf]];
    node.path_regex.as_ref().expect("a rule's node has a pattern").as_str().to_string()
}

#[test]
fn node_new_is_bare() {
    let node = Node::new();
    assert_eq!(node.value, None);
    assert!(node.path_regex.is_none());
    assert!(node.children.is_empty());
    assert_eq!(node.parent, None);
    let node = Node::default();
    assert_eq!(node.value, None);
    assert!(node.children.is_empty());
}

#[test]
fn node_from_holds_the_rule() {
    let node = Node::from(Some(4));
    assert_eq!(node.value, Some(4));
    assert!(node.path_regex.is_none());
    assert!(node.children.is_empty());
    assert_eq!(node.parent, None);
}

#[test]
fn add_or_get_child_adds_once() {
    let mut tree = Tree::new();
    let docs = Node::add_or_get_child(&mut tree, 0, "docs");
    assert_eq!(docs, 1);
    assert_eq!(tree.nodes.len(), 2);
    assert_eq!(tree.nodes[1].parent, Some(0));
    assert_eq!(tree.nodes[0].children, vec![("docs".to_string(), 1)]);
    let again = Node::add_or_get_child(&mut tree, 0, "docs");
    assert_eq!(again, 1);
    assert_eq!(tree.nodes.len(), 2);
    let manual = Node::add_or_get_child(&mut tree, docs, "manual");
    assert_eq!(manual, 2);
    assert_eq!(tree.nodes[2].parent, Some(1));
    let other = Node::add_or_get_child(&mut tree, 0, "Docs");
    assert_eq!(other, 3);
    assert_eq!(tree.find_child(0, "docs"), Some(1));
    assert_eq!(tree.find_child(0, "Docs"), Some(3));
    assert_eq!(tree.find_child(0, "manual"), None);
    assert_eq!(tree.find_child(1, "manual"), Some(2));
}

#[test]
fn walk_creates_the_missing_nodes() {
    let mut tree = Tree::new();
    let leaf = walk(&mut tree, &strings(&["res", "img", "logo"]));
    assert_eq!(leaf, 3);
    assert_eq!(tree.nodes.len(), 4);
    let same = walk(&mut tree, &strings(&["res", "img", "logo"]));
    assert_eq!(same, 3);
    let sibling = walk(&mut tree, &strings(&["res", "snd"]));
    assert_eq!(sibling, 4);
    assert_eq!(walk(&mut tree, &Vec::new()), 0);
}

#[test]
fn segments_of_drops_the_piece_behind_a_directory() {
    assert_eq!(segments_of(&rule("docs/manual/", Some(&["m"]), None)), strings(&["docs", "manual"]));
    assert_eq!(segments_of(&rule("res/img/logo", Some(&["l"]), None)), strings(&["res", "img", "logo"]));
    assert_eq!(segments_of(&rule("readme", Some(&["r"]), None)), strings(&["readme"]));
}

#[test]
fn measure_hands_out_the_segments_of_every_rule() {
    let all = measure(&layered()).expect("no rule has a flaw");
    assert_eq!(all.len(), 4);
    assert_eq!(all[0], strings(&["docs", "manual"]));
    assert_eq!(all[3], strings(&["res", "img", "logo"]));
}

#[test]
fn create_places_rules_by_length_and_chains_patterns() {
    let std = layered();
    let tree = create(&std).expect("the standard is in order");
    let placed: Vec<Option<usize>> =
        tree.rec_nodes.iter().map(|node| tree.nodes[*node].value).collect();
    assert_eq!(placed, vec![Some(1), Some(2), Some(0), Some(3)]);
    assert_eq!(tree.rec_nodes, vec![1, 2, 3, 6]);
    assert_eq!(pattern_of(&tree, 0), "^(?:(docs|doc))$");
    assert_eq!(pattern_of(&tree, 1), r"^(?:readme(\.md)?)$");
    assert_eq!(pattern_of(&tree, 2), "^(?:(docs|doc)/(manual|handbook))$");
    assert_eq!(pattern_of(&tree, 3), "^(?:(logo.png))$");
    assert!(tree.nodes[4].path_regex.is_none());
    assert_eq!(tree.nodes[4].value, None);
    assert_eq!(tree.nodes[6].parent, Some(5));
}

#[test]
fn create_compose_matches_the_patterns_it_stored() {
    let std = layered();
    let tree = create(&std).expect("the standard is in order");
    assert_eq!(tree.compose(&std, 3), "^(?:(docs|doc)/(manual|handbook))$");
    assert_eq!(tree.compose(&std, 5), "^(?:)$");
}

#[test]
fn create_patterns_ignore_letter_case_and_span_the_whole_path() {
    let std = layered();
    let tree = create(&std).expect("the standard is in order");
    let manual = tree.nodes[3].path_regex.as_ref().expect("a pattern");
    assert!(manual.is_match("docs/manual"));
    assert!(manual.is_match("Doc/HandBook"));
    assert!(!manual.is_match("docs/manual/intro.md"));
    assert!(!manual.is_match("manual"));
}

#[test]
fn create_of_an_empty_standard_is_a_bare_root() {
    let tree = create(&standard(Vec::new())).expect("nothing can be wrong");
    assert_eq!(tree.nodes.len(), 1);
    assert!(tree.rec_nodes.is_empty());
}

#[test]
fn create_reports_a_rule_without_pattern_source() {
    let std = standard(vec![rule("a", Some(&["a"]), None), rule("b", None, None)]);
    assert_eq!(create(&std).err(), Some(BuildError::MissingPattern { record: 1 }));
    assert_eq!(measure(&std).err(), Some(BuildError::MissingPattern { record: 1 }));
}

#[test]
fn create_reports_a_rule_with_two_pattern_sources() {
    let std = standard(vec![rule("a", Some(&["a"]), Some("a")), rule("b", None, None)]);
    assert_eq!(create(&std).err(), Some(BuildError::AmbiguousPattern { record: 0 }));
}

#[test]
fn create_reports_a_path_without_segment() {
    let mut odd = rule("x", Some(&["x"]), None);
    odd.directory = true;
    let std = standard(vec![rule("a", Some(&["a"]), None), odd]);
    assert_eq!(create(&std).err(), Some(BuildError::EmptyPath { record: 1 }));
}

#[test]
fn create_reports_the_first_flaw_before_anything_else() {
    let std = standard(vec![
        rule("a", None, Some("(")),
        rule("a", Some(&["a"]), None),
        rule("b", None, None),
    ]);
    assert_eq!(create(&std).err(), Some(BuildError::MissingPattern { record: 2 }));
}

#[test]
fn create_reports_two_rules_at_one_place() {
    let std = standard(vec![
        rule("deep/er/x", Some(&["x"]), None),
        rule("a/b", Some(&["b"]), None),
        rule("a/b/", Some(&["b"]), None),
    ]);
    assert_eq!(create(&std).err(), Some(BuildError::DuplicatePath { record: 2 }));
}

#[test]
fn create_reports_a_pattern_that_does_not_compile() {
    let std = standard(vec![rule("a", Some(&["a"]), None), rule("b", None, Some("("))]);
    assert_eq!(create(&std).err(), Some(BuildError::MalformedPattern { record: 1 }));
}

#[test]
fn attach_hangs_the_pattern_or_reports_the_rule() {
    let mut node = Node::from(Some(3));
    assert_eq!(attach(&mut node, 3, None), Err(BuildError::MalformedPattern { record: 3 }));
    assert!(node.path_regex.is_none());
    let pattern = RegexEq::parse("^a$").expect("a valid pattern");
    assert_eq!(attach(&mut node, 3, Some(pattern)), Ok(()));
    assert_eq!(node.path_regex.as_ref().map(|p| p.as_str()), Some("^a$"));
    assert_eq!(node.value, Some(3));
}

#[test]
fn print_lists_the_tree_with_two_blanks_a_step() {
    let std = layered();
    let tree = create(&std).expect("the standard is in order");
    assert_eq!(
        Node::print(&tree, 0, "root"),
        "- root\n  - docs\n    - manual\n\n  - readme\n\n  - res\n    - img\n      - logo\n"
    );
    assert_eq!(Node::print(&tree, 2, "readme"), "- readme\n");
}

#[test]
fn print_part_uses_the_given_indent_and_step() {
    let std = layered();
    let tree = create(&std).expect("the standard is in order");
    assert_eq!(Node::print_part(&tree, 1, "docs", ">", "\t"), ">- docs\n>\t- manual\n");
    assert_eq!(Node::print_part(&tree, 4, "res", "", "."), "- res\n.- img\n..- logo\n");
}

#[test]
fn create_prepends_the_patterns_of_the_rules_above() {
    let std = standard(vec![
        rule("doc/", Some(&["doc", "docs"]), None),
        rule("doc/readme", None, Some(r"readme(\.md)?")),
    ]);
    let tree = create(&std).expect("the standard is in order");
    assert_eq!(pattern_of(&tree, 0), "^(?:(doc|docs))$");
    assert_eq!(pattern_of(&tree, 1), r"^(?:(doc|docs)/readme(\.md)?)$");
    let readme = tree.nodes[tree.rec_nodes[1]].path_regex.as_ref().expect("a pattern");
    assert!(readme.folds_case());
    assert!(readme.is_match("Docs/README.md"));
}

#[test]
fn create_skips_segments_that_no_rule_ends_at() {
    let std = standard(vec![rule("a/", Some(&["a"]), None), rule("a/b/c", Some(&["c"]), None)]);
    let tree = create(&std).expect("the standard is in order");
    assert_eq!(pattern_of(&tree, 1), "^(?:(a)/(c))$");
    let b = tree.find_child(1, "b").expect("the segment between the rules");
    assert_eq!(tree.nodes[b].value, None);
    assert!(tree.nodes[b].path_regex.is_none());
    assert_eq!(tree.nodes[0].value, None);
    assert!(tree.nodes[0].path_regex.is_none());
}
