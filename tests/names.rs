use zip_archiver::names::{chars_of, find_last_slash, is_safe_entry_name, join_chars, names_directory, parent_of};

fn cs(s: &str) -> Vec<char> {
    s.chars().collect()
}

#[test]
fn safe_names() {
    for good in ["a", "a/b", "..a", "a..", "a/..b", "x/./y", "d/", "a\\b"] {
        assert!(is_safe_entry_name(good), "{}", good);
    }
}

#[test]
fn unsafe_names() {
    for bad in ["", "/", "/a", "..", "../a", "a/..", "a/../b"] {
        assert!(!is_safe_entry_name(bad), "{}", bad);
    }
}

#[test]
fn characters_of_text() {
    assert_eq!(chars_of("héllo"), vec!['h', 'é', 'l', 'l', 'o']);
    assert_eq!(chars_of(""), Vec::<char>::new());
}

#[test]
fn joining_and_parents() {
    assert_eq!(join_chars(&cs("out"), &cs("a/b")), cs("out/a/b"));
    assert_eq!(join_chars(&cs("out/"), &cs("a")), cs("out/a"));
    assert_eq!(join_chars(&cs(""), &cs("a")), cs("a"));
    assert_eq!(parent_of(&cs("out"), &cs("a/b/c")), cs("out/a/b"));
    assert_eq!(parent_of(&cs("out"), &cs("c")), cs("out"));
    assert_eq!(find_last_slash(&cs("a/b/c")), Some(3));
    assert_eq!(find_last_slash(&cs("abc")), None);
    assert!(names_directory(&cs("a/")));
    assert!(!names_directory(&cs("a")));
}
