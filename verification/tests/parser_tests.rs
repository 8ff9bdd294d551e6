use packageurl::parse_name;
use packageurl::parse_namespace;
use packageurl::parse_qualifiers;
use packageurl::parse_scheme;
use packageurl::parse_subpath;
use packageurl::parse_type;
use packageurl::parse_version;

#[test]
fn test_parse_scheme_strips_slashes() {
    let (rest, scheme) = parse_scheme("pkg://npm/x").unwrap();
    assert_eq!(scheme, "pkg");
    assert_eq!(rest, "npm/x");
}

#[test]
fn test_parse_scheme_errors() {
    assert!(matches!(
        parse_scheme("no-colon-here"),
        Err(packageurl::Error::MissingScheme)
    ));
    assert!(matches!(
        parse_scheme("http://x"),
        Err(packageurl::Error::InvalidScheme(s)) if s == "http"
    ));
}

#[test]
fn test_parse_subpath_trims_and_filters() {
    let (rest, sub) = parse_subpath("npm/x#/a/./b//c/").unwrap();
    assert_eq!(rest, "npm/x");
    assert_eq!(sub.as_deref(), Some("a/b/c"));
    let (rest, sub) = parse_subpath("npm/x").unwrap();
    assert_eq!(rest, "npm/x");
    assert_eq!(sub, None);
}

#[test]
fn test_parse_qualifiers_decodes_values() {
    let (rest, quals) = parse_qualifiers("npm/x?A=1&b=%2520&c=").unwrap();
    assert_eq!(rest, "npm/x");
    assert_eq!(quals.len(), 2);
    assert_eq!(quals[0], ("a".to_string(), "1".to_string()));
    assert_eq!(quals[1], ("b".to_string(), "%20".to_string()));
}

#[test]
fn test_parse_version_takes_last_at() {
    let (rest, version) = parse_version("npm/x@1@2").unwrap();
    assert_eq!(rest, "npm/x@1");
    assert_eq!(version.as_deref(), Some("2"));
}

#[test]
fn test_parse_type_lowercases() {
    let (rest, ty) = parse_type("NPM/x").unwrap();
    assert_eq!(ty, "npm");
    assert_eq!(rest, "x");
    assert!(matches!(
        parse_type("npm-no-slash"),
        Err(packageurl::Error::MissingType)
    ));
}

#[test]
fn test_parse_name_takes_last_segment() {
    let (rest, name) = parse_name("ns/more/le%20af").unwrap();
    assert_eq!(rest, "ns/more");
    assert_eq!(name, "le af");
}

#[test]
fn test_parse_namespace_joins_segments() {
    let (rest, ns) = parse_namespace("a/./b").unwrap();
    assert_eq!(rest, "");
    assert_eq!(ns.as_deref(), Some("a/b"));
    let (_, none_ns) = parse_namespace("").unwrap();
    assert_eq!(none_ns, None);
}

#[test]
fn test_version_decoding_matches_reference_decoder() {
    // the version component is percent-decoded with the same permissive
    // rules as the reference percent decoder
    for raw in ["1%2Bx", "1%2bx", "a%zz", "x%4", "%41%C3%A9", "plain"] {
        let expected = percent_encoding::percent_decode_str(raw)
            .decode_utf8()
            .unwrap()
            .to_string();
        let (_, version) = parse_version(&format!("npm/x@{}", raw)).unwrap();
        assert_eq!(version, Some(expected));
    }
}
