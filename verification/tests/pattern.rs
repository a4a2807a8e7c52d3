use osh_dir_std::pattern::RegexEq;

#[test]
fn parse_takes_valid_patterns_and_keeps_their_text() {
    let pattern = RegexEq::parse(r"^(?:readme(\.md)?)$").expect("a valid pattern");
    assert_eq!(pattern.as_str(), r"^(?:readme(\.md)?)$");
}

#[test]
fn parse_refuses_malformed_patterns() {
    assert!(RegexEq::parse("(unclosed").is_none());
    assert!(RegexEq::parse("a{2,1}").is_none());
}

#[test]
fn is_match_runs_the_pattern() {
    let pattern = RegexEq::parse(r"^(?:readme(\.md)?)$").expect("a valid pattern");
    assert!(pattern.is_match("readme"));
    assert!(pattern.is_match("readme.md"));
    assert!(!pattern.is_match("readme.txt"));
    assert!(!pattern.is_match("README"));
}

#[test]
fn is_match_follows_flags_written_in_the_text() {
    let pattern = RegexEq::parse("(?i)^(?:readme)$").expect("a valid pattern");
    assert!(pattern.is_match("README"));
    assert!(pattern.is_match("ReadMe"));
}

#[test]
fn find_splits_the_text_at_the_leftmost_match() {
    let pattern = RegexEq::parse("b+").expect("a valid pattern");
    let (before, matched, after) = pattern.find("aabbbcbb").expect("a match");
    assert_eq!(before, "aa");
    assert_eq!(matched, "bbb");
    assert_eq!(after, "cbb");
}

#[test]
fn find_reports_no_match() {
    let pattern = RegexEq::parse("^x").expect("a valid pattern");
    assert!(pattern.find("abc").is_none());
}

#[test]
fn find_may_match_nothing_at_all() {
    let pattern = RegexEq::parse("x*").expect("a valid pattern");
    let (before, matched, after) = pattern.find("abc").expect("a match");
    assert_eq!(before, "");
    assert_eq!(matched, "");
    assert_eq!(after, "abc");
}

#[test]
fn find_keeps_characters_beyond_ascii_whole() {
    let pattern = RegexEq::parse("ö+").expect("a valid pattern");
    let (before, matched, after) = pattern.find("größe").expect("a match");
    assert_eq!(before, "gr");
    assert_eq!(matched, "ö");
    assert_eq!(after, "ße");
}

#[test]
fn duplicate_is_of_the_same_text_and_matches_alike() {
    let pattern = RegexEq::parse("^src$").expect("a valid pattern");
    let copy = pattern.duplicate();
    assert_eq!(copy.as_str(), "^src$");
    assert!(copy.is_match("src"));
    assert!(!copy.is_match("srcs"));
}

#[test]
fn parse_keeps_letter_case_and_parse_ignoring_case_does_not() {
    let keeping = RegexEq::parse("^src$").expect("a valid pattern");
    assert!(!keeping.folds_case());
    assert!(keeping.is_match("src"));
    assert!(!keeping.is_match("SRC"));
    let ignoring = RegexEq::parse_ignoring_case("^src$").expect("a valid pattern");
    assert!(ignoring.folds_case());
    assert_eq!(ignoring.as_str(), "^src$");
    assert!(ignoring.is_match("src"));
    assert!(ignoring.is_match("SrC"));
    assert!(!ignoring.is_match("srcs"));
    let (before, matched, after) =
        RegexEq::parse_ignoring_case("b+").expect("a valid pattern").find("aBbc").expect("a match");
    assert_eq!((before.as_str(), matched.as_str(), after.as_str()), ("a", "Bb", "c"));
    assert!(RegexEq::parse_ignoring_case("(unclosed").is_none());
}

#[test]
fn patterns_are_equal_where_text_and_letter_case_choice_are() {
    let keeping = RegexEq::parse("^src$").expect("a valid pattern");
    let ignoring = RegexEq::parse_ignoring_case("^src$").expect("a valid pattern");
    assert!(keeping == RegexEq::parse("^src$").expect("a valid pattern"));
    assert!(keeping != ignoring);
    assert!(ignoring == ignoring.duplicate());
    assert!(ignoring.duplicate().folds_case());
    assert!(keeping != RegexEq::parse("^srcs$").expect("a valid pattern"));
}
