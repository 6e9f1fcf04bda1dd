use tracecraft::source_manager::{parse_location, split_lines, trim_text, SourceManager};

fn loaded(path: &str, content: &str) -> (String, String, String) {
    ("main".to_string(), path.to_string(), content.to_string())
}

#[test]
fn lines_split_like_str_lines() {
    assert_eq!(split_lines("a\nb\r\nc"), vec!["a", "b", "c"]);
    assert_eq!(split_lines("a\n\nb\n"), vec!["a", "", "b"]);
    assert_eq!(split_lines(""), Vec::<String>::new());
    assert_eq!(split_lines("x\r"), vec!["x\r"]);
    let text = "one\r\ntwo\n\nthree\r";
    let expected: Vec<String> = text.lines().map(|l| l.to_string()).collect();
    assert_eq!(split_lines(text), expected);
}

#[test]
fn trim_drops_unicode_white_space() {
    assert_eq!(trim_text("  a b \t"), "a b");
    assert_eq!(trim_text("\u{3000}x\u{2009}"), "x");
    assert_eq!(trim_text("   "), "");
    for s in ["\u{85}q\u{a0}", " mixed\u{202f}", "none"] {
        assert_eq!(trim_text(s), s.trim());
    }
}

#[test]
fn locations_parse_file_and_line() {
    assert_eq!(parse_location("src/a.rs:12"), Some(("src/a.rs".to_string(), 12)));
    assert_eq!(parse_location("a.rs:+3:9"), Some(("a.rs".to_string(), 3)));
    assert_eq!(parse_location("a.rs:x"), None);
    assert_eq!(parse_location("a.rs:"), None);
    assert_eq!(parse_location("nocolon"), None);
    assert_eq!(parse_location("a:99999999999999999999999"), None);
    assert_eq!(parse_location(":7"), Some((String::new(), 7)));
}

#[test]
fn snippets_by_file_and_line() {
    let sm = SourceManager::new(&vec![loaded("a.rs", "fn main() {\n    go();\n}\n"), loaded("b.rs", "x")]);
    assert_eq!(sm.get_snippet("a.rs", 2), Some("go();".to_string()));
    assert_eq!(sm.get_snippet("a.rs", 0), None);
    assert_eq!(sm.get_snippet("a.rs", 4), None);
    assert_eq!(sm.get_snippet("c.rs", 1), None);
    assert_eq!(sm.snippet_at("b.rs:1"), Some("x".to_string()));
    assert_eq!(sm.snippet_at("b.rs"), None);
}

#[test]
fn later_file_of_same_path_wins() {
    let sm = SourceManager::new(&vec![loaded("a.rs", "old"), loaded("a.rs", "new")]);
    assert_eq!(sm.get_snippet("a.rs", 1), Some("new".to_string()));
}
