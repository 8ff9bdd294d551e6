use packageurl::JoinableIterator;
use packageurl::QuickFind;
use packageurl::cut;
use packageurl::rcut;

#[test]
fn joinable_test_join() {
    let src = vec!["abc", "def", "ghi"];
    let dst = src.join("/");
    assert_eq!(dst, "abc/def/ghi");

    let src = vec!["abc"];
    let dst = src.join("/");
    assert_eq!(dst, "abc");

    let src: Vec<&str> = vec![];
    let dst = src.join("/");
    assert_eq!(dst, "");
}

#[test]
fn utils_test_join() {
    let src = vec!["abc", "def", "ghi"];
    let dst = src.join("/");
    assert_eq!(dst, "abc/def/ghi");

    let src = vec!["abc"];
    let dst = src.join("/");
    assert_eq!(dst, "abc");

    let src: Vec<&str> = vec![];
    let dst = src.join("/");
    assert_eq!(dst, "");
}

#[test]
fn test_join_owned_strings() {
    let src: Vec<String> = vec!["abc".to_string(), "def".to_string(), "ghi".to_string()];
    let dst = src.join("/");
    assert_eq!(dst, "abc/def/ghi");
}

#[test]
fn test_cut() {
    let buf = "A:B:C";
    assert_eq!(cut(buf, b':'), ("A", "B:C"));
    assert_eq!(cut(buf, b','), ("A:B:C", ""));
}

#[test]
fn test_rcut() {
    let buf = "A:B:C";
    assert_eq!(rcut(buf, b':'), ("A:B", "C"));
    assert_eq!(rcut(buf, b','), ("", "A:B:C"));
}

#[test]
fn test_quickfind() {
    let buf = "Hello, world !";
    assert_eq!(buf.quickfind(b'o'), Some(4));
    assert_eq!(buf.quickfind(b'c'), None);
}

#[test]
fn test_quickrfind() {
    let buf = "Hello, world !";
    assert_eq!(buf.quickrfind(b'o'), Some(8));
    assert_eq!(buf.quickrfind(b'c'), None)
}

#[test]
fn test_quickfind_matches_memchr() {
    let buf = "Hello, world !";
    for needle in [b'o', b'c', b'H', b'!', b' '] {
        assert_eq!(buf.quickfind(needle), memchr::memchr(needle, buf.as_bytes()));
        assert_eq!(
            buf.quickrfind(needle),
            memchr::memrchr(needle, buf.as_bytes())
        );
    }
}

#[test]
fn test_validation_predicates() {
    assert!(packageurl::is_type_valid("npm"));
    assert!(packageurl::is_type_valid("x.y+z-2"));
    assert!(!packageurl::is_type_valid("2npm"));
    assert!(!packageurl::is_type_valid(""));
    assert!(!packageurl::is_type_valid("bad type"));
    assert!(packageurl::is_qualifier_key_valid("repository_url"));
    assert!(!packageurl::is_qualifier_key_valid("1key"));
    assert!(!packageurl::is_qualifier_key_valid("bad key"));
    assert!(packageurl::is_namespace_component_valid("ns"));
    assert!(!packageurl::is_namespace_component_valid(""));
    assert!(!packageurl::is_namespace_component_valid("a/b"));
    assert!(packageurl::is_subpath_segment_valid("seg"));
    assert!(!packageurl::is_subpath_segment_valid("."));
    assert!(!packageurl::is_subpath_segment_valid(".."));
    assert!(!packageurl::is_subpath_segment_valid(""));
}
