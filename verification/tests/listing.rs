use osh_dir_std::listing::{dirs_and_files, is_path_line, line_to_path, path_trail, DirsAdder};

fn strings(items: &[&str]) -> Vec<String> {
    items.iter().map(|item| item.to_string()).collect()
}

#[test]
fn is_path_line_skips_comments_and_empty_lines() {
    assert!(is_path_line("src/main.rs"));
    assert!(is_path_line(" # not at the start"));
    assert!(!is_path_line(""));
    assert!(!is_path_line("# a comment"));
    assert!(!is_path_line("#"));
}

#[test]
fn line_to_path_takes_off_a_leading_dot_segment() {
    assert_eq!(line_to_path("./src/main.rs"), "src/main.rs");
    assert_eq!(line_to_path(".\\src\\main.rs"), "src\\main.rs");
    assert_eq!(line_to_path("src/./main.rs"), "src/./main.rs");
    assert_eq!(line_to_path("../up"), "../up");
    assert_eq!(line_to_path("."), ".");
    assert_eq!(line_to_path("./"), "");
    assert_eq!(line_to_path(".hidden"), ".hidden");
}

#[test]
fn path_trail_lists_the_directories_above() {
    assert_eq!(path_trail("a/b/c"), strings(&["a/b/c", "a/b/", "a/"]));
    assert_eq!(path_trail("a/b/"), strings(&["a/b/", "a/"]));
    assert_eq!(path_trail("x"), strings(&["x"]));
    assert_eq!(path_trail("x/"), strings(&["x/"]));
    assert_eq!(path_trail("/x"), strings(&["/x", "/"]));
    assert_eq!(path_trail(""), strings(&[]));
}

#[test]
fn dirs_adder_hands_out_every_path_once() {
    let mut adder = DirsAdder::new();
    assert_eq!(adder.call_mut("a/b/c"), strings(&["a/b/c", "a/b/", "a/"]));
    assert_eq!(adder.call_mut("a/b/d"), strings(&["a/b/d"]));
    assert_eq!(adder.call_mut("a/b/"), strings(&[]));
    assert_eq!(adder.call_mut("a/x/y"), strings(&["a/x/y", "a/x/"]));
    assert_eq!(adder.call_mut("a/b/c"), strings(&[]));
}

#[test]
fn dirs_and_files_reads_a_listing() {
    let lines = strings(&[
        "# files of the project",
        "",
        "./src/main.rs",
        "src/lib.rs",
        "docs/",
        "src/main.rs",
        "docs/manual/intro.md",
    ]);
    assert_eq!(
        dirs_and_files(&lines),
        strings(&[
            "src/main.rs",
            "src/",
            "src/lib.rs",
            "docs/",
            "docs/manual/intro.md",
            "docs/manual/",
        ])
    );
    assert_eq!(dirs_and_files(&Vec::new()), strings(&[]));
}
