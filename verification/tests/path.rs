use mate::path::{raw_bytes, spell_name, FilePath, Platform};

fn spelled(path: &str, raw: Vec<Option<Vec<u8>>>) -> FilePath {
    FilePath::unix(path).with_raw_names(&raw)
}

#[test]
fn drive_letters_have_no_case() {
    let upper = FilePath::windows("C:\\venv");
    let lower = FilePath::windows("c:\\venv");
    assert!(upper.same(&lower));
    assert!(lower.child("bin").starts_with(&upper));
    assert_eq!(lower.text(), "c:\\venv");
    assert!(!upper.same(&FilePath::windows("D:\\venv")));
    assert!(!upper.same(&FilePath::windows("C:\\Venv")));
    assert!(!upper.same(&FilePath::windows("C:venv")));
    assert!(FilePath::windows("\\\\?\\C:\\v").same(&FilePath::windows("\\\\?\\c:\\v")));
    assert!(!FilePath::windows("\\\\host\\Share\\v").same(&FilePath::windows("\\\\host\\share\\v")));
}

#[test]
fn names_that_are_not_unicode_are_told_apart() {
    let one = spelled("/home/\u{fffd}", vec![None, Some(vec![0xff])]);
    let other = spelled("/home/\u{fffd}", vec![None, Some(vec![0xfe])]);
    let unicode = FilePath::unix("/home/\u{fffd}");
    assert_eq!(one.text(), "/home/\u{fffd}");
    assert_eq!(one.text(), other.text());
    assert!(one.same(&one.clone()));
    assert!(!one.same(&other));
    assert!(!one.same(&unicode));
    assert!(!one.is_exact());
    assert!(unicode.is_exact());
    assert!(one.child("bin").starts_with(&one));
    assert!(!one.child("bin").starts_with(&other));
    assert!(one.ancestor(1).same(&FilePath::unix("/home")));
    assert!(one.ancestor(1).is_exact());
}

#[test]
fn a_spelled_name_tells_what_it_is_made_of() {
    let name = spell_name("caf\u{fffd}", &vec![b'c', b'a', b'f', 0xe9, b'/']);
    assert_eq!(raw_bytes(&name), Some(vec![b'c', b'a', b'f', 0xe9, b'/']));
    assert_eq!(raw_bytes("caf"), None);
    let path = FilePath { platform: Platform::Unix, root: "/".into(), parts: vec![name] };
    assert_eq!(path.text(), "/caf\u{fffd}");
}
