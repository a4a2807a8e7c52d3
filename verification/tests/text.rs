use osh_dir_std::text::{ends_with_separator, join_texts, split_text, strip_separator};

fn strings(items: &[&str]) -> Vec<String> {
    items.iter().map(|item| item.to_string()).collect()
}

#[test]
fn split_text_keeps_empty_pieces() {
    assert_eq!(split_text("a/b/c", '/'), strings(&["a", "b", "c"]));
    assert_eq!(split_text("src/", '/'), strings(&["src", ""]));
    assert_eq!(split_text("/x", '/'), strings(&["", "x"]));
    assert_eq!(split_text("a//b", '/'), strings(&["a", "", "b"]));
    assert_eq!(split_text("", '/'), strings(&[""]));
    assert_eq!(split_text("plain", '/'), strings(&["plain"]));
}

#[test]
fn split_text_handles_text_beyond_ascii() {
    assert_eq!(split_text("törn|ß|日本", '|'), strings(&["törn", "ß", "日本"]));
}

#[test]
fn join_texts_puts_separator_between_pieces() {
    assert_eq!(join_texts(&strings(&["a", "b", "c"]), '|'), "a|b|c");
    assert_eq!(join_texts(&strings(&["only"]), '|'), "only");
    assert_eq!(join_texts(&strings(&[]), '|'), "");
    assert_eq!(join_texts(&strings(&["", ""]), '/'), "/");
}

#[test]
fn join_undoes_split() {
    for text in ["a/b/c", "src/", "/", "", "a//b/"] {
        assert_eq!(join_texts(&split_text(text, '/'), '/'), text);
    }
}

#[test]
fn ends_with_separator_tells_directories() {
    assert!(ends_with_separator("src/"));
    assert!(ends_with_separator("/"));
    assert!(!ends_with_separator("src"));
    assert!(!ends_with_separator(""));
    assert!(!ends_with_separator("src/main.rs"));
}

#[test]
fn strip_separator_drops_one_trailing_separator() {
    assert_eq!(strip_separator("src/"), "src");
    assert_eq!(strip_separator("src"), "src");
    assert_eq!(strip_separator("a/b//"), "a/b/");
    assert_eq!(strip_separator("/"), "");
    assert_eq!(strip_separator(""), "");
    assert_eq!(strip_separator("größe/"), "größe");
}
