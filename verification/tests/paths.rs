use rezip::path::{
    accept_cleaned, clean_path, is_normalized, leaves_root, segment_is_name, slash_chars,
    split_segments,
};
use rezip::text::{chars_of, string_of};

fn chars(s: &str) -> Vec<char> {
    s.chars().collect()
}

#[test]
fn normalized_path_is_unchanged() {
    assert_eq!(clean_path("a/b/c"), Some("a/b/c".to_string()));
    assert_eq!(clean_path("pkg/src/main.lua"), Some("pkg/src/main.lua".to_string()));
    assert_eq!(clean_path("file.txt"), Some("file.txt".to_string()));
}

#[test]
fn sanitizing_twice_is_sanitizing_once() {
    for raw in ["a/./b/../c", "x\\y\\", "./p//q", "a/b/c"] {
        let once = clean_path(raw).unwrap();
        assert_eq!(clean_path(&once), Some(once.clone()));
    }
}

#[test]
fn traversal_is_rejected() {
    assert_eq!(clean_path("../secret"), None);
    assert_eq!(clean_path("a/../../b"), None);
    assert_eq!(clean_path(".."), None);
    assert_eq!(clean_path("a\\..\\..\\b"), None);
    assert_eq!(clean_path("..\\secret"), None);
}

#[test]
fn backslashes_are_separators() {
    assert_eq!(clean_path("a\\b\\c"), Some("a/b/c".to_string()));
    assert_eq!(clean_path("a\\b\\c"), clean_path("a/b/c"));
    assert_eq!(clean_path("a\\b/c"), Some("a/b/c".to_string()));
}

#[test]
fn dots_and_doubled_slashes_are_resolved() {
    assert_eq!(clean_path("a/./b"), Some("a/b".to_string()));
    assert_eq!(clean_path("a/x/../b"), Some("a/b".to_string()));
    assert_eq!(clean_path("a//b"), Some("a/b".to_string()));
    assert_eq!(clean_path("./a"), Some("a".to_string()));
    assert_eq!(clean_path("dir/"), Some("dir".to_string()));
    assert_eq!(clean_path("dir\\sub\\"), Some("dir/sub".to_string()));
}

#[test]
fn empty_and_rootless_paths_are_rejected() {
    assert_eq!(clean_path(""), None);
    assert_eq!(clean_path("."), None);
    assert_eq!(clean_path("a/.."), None);
    assert_eq!(clean_path("/"), None);
}

#[test]
fn absolute_paths_are_rejected() {
    assert_eq!(clean_path("/etc/passwd"), None);
    assert_eq!(clean_path("\\windows\\system32"), None);
}

#[test]
fn non_ascii_names_pass() {
    assert_eq!(clean_path("données/été.txt"), Some("données/été.txt".to_string()));
}

#[test]
fn cleaned_paths_are_checked() {
    assert_eq!(accept_cleaned("a/b".to_string()), Some("a/b".to_string()));
    assert_eq!(accept_cleaned(".".to_string()), None);
    assert_eq!(accept_cleaned("../a".to_string()), None);
    assert_eq!(accept_cleaned("/a".to_string()), None);
    assert_eq!(accept_cleaned("a\\b".to_string()), None);
    assert_eq!(accept_cleaned(String::new()), None);
}

#[test]
fn segments_are_split_at_slashes() {
    assert_eq!(split_segments(&chars("a/b")), vec![chars("a"), chars("b")]);
    assert_eq!(split_segments(&chars("")), vec![chars("")]);
    assert_eq!(split_segments(&chars("/a/")), vec![chars(""), chars("a"), chars("")]);
    assert_eq!(split_segments(&chars("a//b")), vec![chars("a"), chars(""), chars("b")]);
}

#[test]
fn slashes_replace_backslashes() {
    assert_eq!(slash_chars(&chars("a\\b/c\\")), chars("a/b/c/"));
    assert_eq!(slash_chars(&chars("")), chars(""));
}

#[test]
fn names_are_recognised() {
    assert!(segment_is_name(&chars("a")));
    assert!(segment_is_name(&chars("...")));
    assert!(segment_is_name(&chars(".hidden")));
    assert!(!segment_is_name(&chars("")));
    assert!(!segment_is_name(&chars(".")));
    assert!(!segment_is_name(&chars("..")));
    assert!(!segment_is_name(&chars("a\\b")));
}

#[test]
fn normal_form_is_recognised() {
    assert!(is_normalized(&chars("a/b/c")));
    assert!(!is_normalized(&chars("a/../b")));
    assert!(!is_normalized(&chars("/a")));
    assert!(!is_normalized(&chars("a/")));
    assert!(!is_normalized(&chars("")));
}

#[test]
fn leaving_the_root_is_recognised() {
    assert!(leaves_root(&chars("..")));
    assert!(leaves_root(&chars("a/../..")));
    assert!(leaves_root(&chars("a/../../b/c/d")));
    assert!(!leaves_root(&chars("a/..")));
    assert!(!leaves_root(&chars("a/b/../../c")));
    assert!(!leaves_root(&chars("./a//b")));
}

#[test]
fn text_and_characters_convert() {
    assert_eq!(chars_of("héllo"), chars("héllo"));
    assert_eq!(string_of(&chars("héllo/wörld")), "héllo/wörld".to_string());
    assert_eq!(string_of(&Vec::new()), String::new());
}
