use mate::model::EnvMap;
use mate::order::{compare_number, compare_text, sort_texts};
use mate::path::{compare_path, FilePath, Platform};
use mate::text::{
    decimal_text, escape_text, pad_text, same_ignoring_case, text_contains, text_has_control,
    text_is_blank, text_lines, text_rsplit_once, text_split_once, text_trim, text_words,
};

fn texts(items: &[&str]) -> Vec<String> {
    items.iter().map(|item| item.to_string()).collect()
}

#[test]
fn texts_are_taken_apart() {
    assert_eq!(text_lines("a\r\nb\n\nc"), ["a", "b", "", "c"]);
    assert_eq!(text_lines("a\n"), ["a"]);
    assert!(text_lines("").is_empty());
    assert_eq!(text_words(" a\tb \u{3000}c "), ["a", "b", "c"]);
    assert_eq!(text_split_once("a - b - c", " - "), Some(("a".into(), "b - c".into())));
    assert_eq!(text_rsplit_once("@types/node@24", '@'), Some(("@types/node".into(), "24".into())));
    assert_eq!(text_split_once("abc", " - "), None);
}

#[test]
fn texts_are_trimmed_and_tested() {
    assert_eq!(text_trim(" \u{2003}x y\n"), "x y");
    assert!(text_is_blank(" \t\n"));
    assert!(!text_is_blank(" x "));
    assert!(text_has_control("a\u{9b}"));
    assert!(!text_has_control("aé"));
    assert!(text_contains("ripgrep", "pgr"));
    assert!(!text_contains("ripgrep", "xyz"));
    assert!(same_ignoring_case("ABC", "abc"));
    assert!(!same_ignoring_case("É", "é"));
}

#[test]
fn texts_are_written() {
    assert_eq!(decimal_text(0), "0");
    assert_eq!(decimal_text(1_024), "1024");
    assert_eq!(pad_text("ab", 4), "ab  ");
    assert_eq!(pad_text("abcde", 4), "abcde");
    assert_eq!(escape_text("\t\r\n\u{0}\u{7f}"), "\\t\\r\\n\\u{0}\\u{7f}");
    assert_eq!(escape_text(&escape_text("a\u{1b}b")), escape_text("a\u{1b}b"));
}

#[test]
fn texts_are_ordered_by_code_points() {
    assert!(compare_text("a", "b").is_lt());
    assert!(compare_text("a", "aa").is_lt());
    assert!(compare_text("\u{ffff}", "\u{10000}").is_lt());
    assert!(compare_text("a", "a").is_eq());
    assert!(compare_number(3, 2).is_gt());
    assert_eq!(sort_texts(&texts(&["b", "a", "b"])), texts(&["a", "b"]));
}

#[test]
fn unix_paths_are_read_and_written() {
    for text in ["/", "/usr/bin/tool", "relative/path", "./here", "/a/.."] {
        assert_eq!(FilePath::unix(text).text(), text);
    }
    assert_eq!(FilePath::unix("/a//b/./c/").text(), "/a/b/c");
    assert!(FilePath::unix("/a").is_absolute());
    assert!(!FilePath::unix("a").is_absolute());
    assert_eq!(FilePath::unix("").text(), "");
}

#[test]
fn windows_paths_are_read_and_written() {
    assert_eq!(FilePath::windows("C:/Users/me").text(), "C:\\Users\\me");
    assert!(FilePath::windows("C:\\Users").is_absolute());
    assert!(!FilePath::windows("C:Users").is_absolute());
    assert!(!FilePath::windows("\\Users").is_absolute());
    assert_eq!(FilePath::windows("\\\\server\\share\\a").text(), "\\\\server\\share\\a");
    assert_eq!(FilePath::parse(Platform::Windows, "a/b").text(), "a\\b");
    assert_eq!(FilePath::parse(Platform::Unix, "a/b").text(), "a/b");
}

#[test]
fn paths_are_put_together() {
    let base = FilePath::unix("/a/b");
    assert_eq!(base.child("c").text(), "/a/b/c");
    assert_eq!(base.resolve(&FilePath::unix("c/d")).text(), "/a/b/c/d");
    assert_eq!(base.resolve(&FilePath::unix("/x")).text(), "/x");
    assert_eq!(base.ancestor(1).text(), "/a");
    assert!(base.child("c").starts_with(&base));
    assert!(!FilePath::unix("/a/bc").starts_with(&base));
    assert!(base.same(&FilePath::unix("/a/b/")));
    assert!(compare_path(&FilePath::unix("/a"), &base).is_lt());
    let drive = FilePath::windows("D:\\x");
    assert_eq!(drive.resolve(&FilePath::windows("\\y")).text(), "D:\\y");
}

#[test]
fn variables_are_kept_in_order() {
    let env = EnvMap::new().with("B", "1").with("A", "2").with("B", "3");
    let entries: Vec<(&str, &str)> =
        env.entries().iter().map(|v| (v.name.as_str(), v.value.as_str())).collect();
    assert_eq!(entries, [("A", "2"), ("B", "3")]);
}
