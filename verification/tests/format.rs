use osh_dir_std::format::{
    contains_text, dedup_texts, join_set, DirStandard, DirStd, OptBool, Rec, Record, FULL_WEIGHT,
};

fn strings(items: &[&str]) -> Vec<String> {
    items.iter().map(|item| item.to_string()).collect()
}

fn rule(path: &str, weight: u32) -> Rec {
    Rec {
        path: path.to_string(),
        normative: true,
        versioned: false,
        generated: false,
        module: false,
        directory: path.ends_with('/'),
        arbitrary_content: None,
        tags: Vec::new(),
        indicativeness: weight,
        variations: None,
        regex: None,
        description: "what it is".to_string(),
        sample_content: "what it holds".to_string(),
    }
}

fn row(path: &str, weight: u32) -> Record {
    Record {
        path: path.to_string(),
        normative: false,
        versioned: true,
        generated: true,
        module: false,
        arbitrary_content: OptBool::Unset,
        tags: String::new(),
        indicativeness: weight,
        variations: None,
        regex: None,
        description: "what it is".to_string(),
        sample_content: "what it holds".to_string(),
    }
}

#[test]
fn opt_bool_init_code_names_each_state() {
    assert_eq!(OptBool::False.init_code(), "Some(false)");
    assert_eq!(OptBool::True.init_code(), "Some(true)");
    assert_eq!(OptBool::Unset.init_code(), "None");
}

#[test]
fn opt_bool_stands_for_an_optional_flag() {
    assert_eq!(OptBool::from(Some(false)), OptBool::False);
    assert_eq!(OptBool::from(Some(true)), OptBool::True);
    assert_eq!(OptBool::from(None), OptBool::Unset);
    assert_eq!(OptBool::False.to_option(), Some(false));
    assert_eq!(OptBool::True.to_option(), Some(true));
    assert_eq!(OptBool::Unset.to_option(), None);
}

#[test]
fn get_regex_str_renders_variations_as_alternation() {
    let mut license = rule("license", 1);
    license.variations = Some(strings(&["license", "licence"]));
    assert_eq!(license.get_regex_str(), Some("(license|licence)".to_string()));
    license.variations = Some(strings(&["src"]));
    assert_eq!(license.get_regex_str(), Some("(src)".to_string()));
}

#[test]
fn get_regex_str_hands_out_the_explicit_pattern() {
    let mut readme = rule("readme", 1);
    readme.regex = Some(r"readme(\.md)?".to_string());
    assert_eq!(readme.get_regex_str(), Some(r"readme(\.md)?".to_string()));
}

#[test]
fn get_regex_str_wants_exactly_one_source() {
    let mut neither = rule("x", 1);
    assert_eq!(neither.get_regex_str(), None);
    neither.variations = Some(strings(&["x"]));
    neither.regex = Some("x".to_string());
    assert_eq!(neither.get_regex_str(), None);
}

#[test]
fn join_set_joins_with_the_token() {
    assert_eq!(join_set(&strings(&["doc", "src", "hw"]), '|'), "doc|src|hw");
    assert_eq!(join_set(&strings(&[]), '|'), "");
    assert_eq!(join_set(&strings(&["one"]), ','), "one");
}

#[test]
fn contains_text_finds_equal_text() {
    let all = strings(&["a", "bc", ""]);
    assert!(contains_text(&all, "bc"));
    assert!(contains_text(&all, ""));
    assert!(!contains_text(&all, "b"));
}

#[test]
fn dedup_texts_keeps_first_occurrences() {
    assert_eq!(dedup_texts(strings(&["b", "a", "b", "c", "a"])), strings(&["b", "a", "c"]));
    assert_eq!(dedup_texts(strings(&[])), strings(&[]));
}

#[test]
fn to_record_joins_lists_and_keeps_the_rest() {
    let mut source = rule("src/", 250_000);
    source.tags = strings(&["code", "text"]);
    source.variations = Some(strings(&["src", "source"]));
    source.arbitrary_content = Some(true);
    source.module = true;
    let row = source.to_record();
    assert_eq!(row.path, "src/");
    assert!(row.normative);
    assert!(!row.versioned);
    assert!(!row.generated);
    assert!(row.module);
    assert_eq!(row.arbitrary_content, OptBool::True);
    assert_eq!(row.tags, "code|text");
    assert_eq!(row.indicativeness, 250_000);
    assert_eq!(row.variations, Some("src|source".to_string()));
    assert_eq!(row.regex, None);
    assert_eq!(row.description, "what it is");
    assert_eq!(row.sample_content, "what it holds");
    assert!(row.directory());
}

#[test]
fn to_rec_takes_lists_apart_and_reads_the_directory_flag() {
    let mut table_row = row("docs/", 7);
    table_row.tags = "doc|text|doc".to_string();
    table_row.variations = Some("docs|doc".to_string());
    table_row.arbitrary_content = OptBool::False;
    let rule = table_row.to_rec();
    assert_eq!(rule.path, "docs/");
    assert!(rule.directory);
    assert!(!rule.normative);
    assert!(rule.versioned);
    assert!(rule.generated);
    assert_eq!(rule.arbitrary_content, Some(false));
    assert_eq!(rule.tags, strings(&["doc", "text"]));
    assert_eq!(rule.variations, Some(strings(&["docs", "doc"])));
    assert_eq!(rule.regex, None);
    assert_eq!(rule.indicativeness, 7);

    let mut file_row = row("readme", 1);
    file_row.regex = Some(r"readme(\.md)?".to_string());
    let rule = file_row.to_rec();
    assert!(!rule.directory);
    assert!(!file_row.directory());
    assert_eq!(rule.regex, Some(r"readme(\.md)?".to_string()));
    assert_eq!(rule.variations, None);
    assert_eq!(rule.arbitrary_content, None);
}

#[test]
fn to_rec_and_back_gives_the_row() {
    let mut table_row = row("res/", 3);
    table_row.tags = "a|b".to_string();
    table_row.variations = Some("res|resources".to_string());
    let again = table_row.to_rec().to_record();
    assert_eq!(again.path, table_row.path);
    assert_eq!(again.tags, table_row.tags);
    assert_eq!(again.variations, table_row.variations);
    assert_eq!(again.arbitrary_content, table_row.arbitrary_content);
}

#[test]
fn from_records_makes_weights_shares_of_the_whole() {
    let std = DirStandard::from_records(
        "s".to_string(),
        vec![row("src/", 5), row("docs/", 3), row("readme", 2)],
    );
    assert_eq!(std.name, "s");
    let weights: Vec<u32> = std.records.iter().map(|record| record.indicativeness).collect();
    assert_eq!(weights, vec![500_000, 300_000, 200_000]);
    assert_eq!(std.records[1].path, "docs/");
}

#[test]
fn from_records_gives_what_rounding_leaves_to_the_first_weight() {
    let std = DirStandard::from_records("s".to_string(), vec![row("a", 1), row("b", 1), row("c", 1)]);
    let weights: Vec<u32> = std.records.iter().map(|record| record.indicativeness).collect();
    assert_eq!(weights, vec![333_334, 333_333, 333_333]);
    let std = DirStandard::from_records(
        "s".to_string(),
        vec![row("z", 0), row("a", 1), row("b", 1), row("c", 1)],
    );
    let weights: Vec<u32> = std.records.iter().map(|record| record.indicativeness).collect();
    assert_eq!(weights, vec![0, 333_334, 333_333, 333_333]);
}

#[test]
fn from_records_makes_the_weights_add_up_to_the_full_weight() {
    for count in [1usize, 3, 7, 19, 64, 1000] {
        let rows = (0..count).map(|i| row(&format!("r{i}"), 1 + (i as u32 % 5))).collect();
        let std = DirStandard::from_records("s".to_string(), rows);
        let sum: u64 = std.records.iter().map(|record| u64::from(record.indicativeness)).sum();
        assert_eq!(sum, u64::from(FULL_WEIGHT));
        assert!(std.to_dir_std().check_normalized());
    }
}

#[test]
fn from_records_of_one_row_gives_it_the_full_weight() {
    let std = DirStandard::from_records("s".to_string(), vec![row("a", 7)]);
    assert_eq!(std.records[0].indicativeness, FULL_WEIGHT);
}

#[test]
fn from_records_leaves_weights_of_zero_alone() {
    let std = DirStandard::from_records("s".to_string(), vec![row("a", 0), row("b", 0)]);
    assert_eq!(std.records[0].indicativeness, 0);
    assert_eq!(std.records[1].indicativeness, 0);
    let empty = DirStandard::from_records("e".to_string(), Vec::new());
    assert!(empty.records.is_empty());
}

#[test]
fn from_records_handles_the_largest_weights() {
    let std = DirStandard::from_records(
        "s".to_string(),
        vec![row("a", u32::MAX), row("b", u32::MAX)],
    );
    assert_eq!(std.records[0].indicativeness, 500_000);
    assert_eq!(std.records[1].indicativeness, 500_000);
}

#[test]
fn to_dir_std_makes_every_row_a_rule() {
    let mut docs = row("docs/", 300_000);
    docs.module = true;
    let table = DirStandard { name: "t".to_string(), records: vec![docs, row("readme", 700_000)] };
    let std = table.to_dir_std();
    assert_eq!(std.name, "t");
    assert_eq!(std.records.len(), 2);
    assert!(std.records[0].directory);
    assert!(std.records[0].module);
    assert!(!std.records[1].directory);
    assert_eq!(std.records[1].indicativeness, 700_000);
    assert_eq!(std.total_weight(), 1_000_000);
}

#[test]
fn check_normalized_compares_the_sum_with_the_full_weight() {
    let fine = DirStd { name: "f".to_string(), records: vec![rule("a", 500_000), rule("b", 500_000)] };
    assert_eq!(fine.total_weight(), 1_000_000);
    assert!(fine.check_normalized());
    let heavy = DirStd { name: "h".to_string(), records: vec![rule("a", 600_000), rule("b", 400_001)] };
    assert!(!heavy.check_normalized());
    let light = DirStd { name: "l".to_string(), records: vec![rule("a", 1), rule("b", 1)] };
    assert!(!light.check_normalized());
    let close = DirStd {
        name: "c".to_string(),
        records: vec![rule("a", 333_333), rule("b", 333_333), rule("c", 333_333)],
    };
    assert!(close.check_normalized());
    let empty = DirStd { name: "e".to_string(), records: Vec::new() };
    assert_eq!(empty.total_weight(), 0);
    assert!(!empty.check_normalized());
}
