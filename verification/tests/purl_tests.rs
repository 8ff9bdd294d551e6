use packageurl::Error;
use packageurl::PackageUrl;

#[test]
fn test_from_str() {
    let raw_purl = "pkg:type/name/space/name@version?k1=v1&k2=v2#sub/path";
    let purl = PackageUrl::from_str(raw_purl).unwrap();
    assert_eq!(purl.ty(), "type");
    assert_eq!(purl.namespace(), Some("name/space"));
    assert_eq!(purl.name(), "name");
    assert_eq!(purl.version(), Some("version"));
    assert!(purl.qualifiers().iter().any(|(k, v)| k == "k1" && v == "v1"));
    assert!(purl.qualifiers().iter().any(|(k, v)| k == "k2" && v == "v2"));
    assert_eq!(purl.subpath(), Some("sub/path"));
}

#[test]
fn test_to_str() {
    let canonical = "pkg:type/name/space/name@version?k1=v1&k2=v2#sub/path";
    let mut purl = PackageUrl::new("type", "name").unwrap();
    purl.with_namespace("name/space");
    purl.with_version("version");
    purl.with_subpath("sub/path").unwrap();
    purl.add_qualifier("k1", "v1").unwrap();
    purl.add_qualifier("k2", "v2").unwrap();
    let purl_string = purl.to_string();
    assert_eq!(&purl_string, canonical);
}

#[test]
fn test_percent_encoding_idempotent() {
    let orig = "pkg:brew/openssl%25401.1@1.1.1w";
    let round_trip = orig.parse::<PackageUrl>().unwrap().to_string();
    assert_eq!(orig, round_trip);
}

#[test]
fn test_percent_encoding_qualifier() {
    let mut purl = "pkg:deb/ubuntu/gnome-calculator@1:41.1-2ubuntu2"
        .parse::<PackageUrl>()
        .unwrap();
    purl.add_qualifier(
        "vcs_url",
        "git+https://salsa.debian.org/gnome-team/gnome-calculator.git@debian/1%41.1-2",
    )
    .unwrap();
    let encoded = purl.to_string();
    assert_eq!(encoded, "pkg:deb/ubuntu/gnome-calculator@1:41.1-2ubuntu2?vcs_url=git%2Bhttps://salsa.debian.org/gnome-team/gnome-calculator.git%40debian/1%2541.1-2");
}

#[test]
fn test_plus_sign_in_version() {
    let expected = "pkg:type/name@1%2Bx";
    for purl in [
        "pkg:type/name@1+x",
        "pkg:type/name@1%2bx",
        "pkg:type/name@1%2Bx",
    ] {
        let actual = PackageUrl::from_str(purl).unwrap().to_string();
        assert_eq!(actual, expected);
    }
}

#[test]
fn test_ecosystem_normalization_pypi() {
    let purl = PackageUrl::from_str("pkg:PyPI/Foo_Bar@1").unwrap();
    assert_eq!(purl.ty(), "pypi");
    assert_eq!(purl.name(), "foo-bar");
}

#[test]
fn test_ecosystem_normalization_bitbucket() {
    let purl = PackageUrl::from_str("pkg:BitBucket/Foo/Bar@1").unwrap();
    assert_eq!(purl.ty(), "bitbucket");
    assert_eq!(purl.namespace(), Some("foo"));
    assert_eq!(purl.name(), "bar");
}

#[test]
fn test_empty_value_qualifier_dropped() {
    let purl = PackageUrl::from_str("pkg:npm/x@1?k=").unwrap();
    assert!(purl.qualifiers().is_empty());
    assert_eq!(purl.to_string(), "pkg:npm/x@1");
}

#[test]
fn test_invalid_type_rejected() {
    let err = PackageUrl::from_str("pkg: bad type/x").unwrap_err();
    assert!(matches!(err, Error::InvalidType(t) if t == " bad type"));
}

#[test]
fn test_missing_scheme_rejected() {
    let err = PackageUrl::from_str("type:name/space/name@version").unwrap_err();
    assert!(matches!(err, Error::InvalidScheme(s) if s == "type"));
    let err = PackageUrl::from_str("package@0.1.0").unwrap_err();
    assert!(matches!(err, Error::MissingScheme));
}

#[test]
fn test_segment_filtering() {
    let purl =
        PackageUrl::from_str("pkg:golang/google.golang.org/genproto#googleapis/api/annotations")
            .unwrap();
    assert_eq!(purl.ty(), "golang");
    assert_eq!(purl.namespace(), Some("google.golang.org"));
    assert_eq!(purl.name(), "genproto");
    assert_eq!(purl.subpath(), Some("googleapis/api/annotations"));
}

#[test]
fn test_subpath_dot_segments_dropped() {
    let purl = PackageUrl::from_str("pkg:golang/genproto#./api/../annotations").unwrap();
    assert_eq!(purl.subpath(), Some("api/annotations"));
}

#[test]
fn test_percent_encoding_round_trip() {
    let mut purl = PackageUrl::new("npm", "animation").unwrap();
    purl.with_namespace("@angular");
    purl.with_version("12.3.1");
    assert_eq!(purl.to_string(), "pkg:npm/%40angular/animation@12.3.1");
    let back = PackageUrl::from_str("pkg:npm/%40angular/animation@12.3.1").unwrap();
    assert_eq!(back.namespace(), Some("@angular"));
    assert_eq!(back.name(), "animation");
    assert_eq!(back.version(), Some("12.3.1"));
}

#[test]
fn test_insignificant_slashes() {
    let a = PackageUrl::from_str("pkg:type//name/space/name@version").unwrap();
    let b = PackageUrl::from_str("pkg:type/name/space/name@version").unwrap();
    assert_eq!(a.to_string(), b.to_string());
    assert_eq!(a.namespace(), b.namespace());
    let c = PackageUrl::from_str("pkg://type/name@version").unwrap();
    assert_eq!(c.to_string(), "pkg:type/name@version");
}

#[test]
fn test_qualifier_order_determinism() {
    let mut a = PackageUrl::new("npm", "x").unwrap();
    a.add_qualifier("zeta", "1").unwrap();
    a.add_qualifier("alpha", "2").unwrap();
    let mut b = PackageUrl::new("npm", "x").unwrap();
    b.add_qualifier("alpha", "2").unwrap();
    b.add_qualifier("zeta", "1").unwrap();
    assert_eq!(a.to_string(), b.to_string());
    assert_eq!(a.to_string(), "pkg:npm/x?alpha=2&zeta=1");
}

#[test]
fn test_qualifier_last_occurrence_wins() {
    let purl = PackageUrl::from_str("pkg:npm/x?k=a&k=b").unwrap();
    assert_eq!(purl.qualifiers().len(), 1);
    assert!(purl.qualifiers().iter().any(|(k, v)| k == "k" && v == "b"));
}

#[test]
fn test_missing_type() {
    let err = PackageUrl::from_str("pkg:nothing").unwrap_err();
    assert!(matches!(err, Error::MissingType));
}

#[test]
fn test_missing_name() {
    let err = PackageUrl::from_str("pkg:type/").unwrap_err();
    assert!(matches!(err, Error::MissingName));
}

#[test]
fn test_invalid_key() {
    let err = PackageUrl::from_str("pkg:type/name?1bad=x").unwrap_err();
    assert!(matches!(err, Error::InvalidKey(k) if k == "1bad"));
}

#[test]
fn test_invalid_subpath_segment() {
    let mut purl = PackageUrl::new("npm", "x").unwrap();
    let err = purl.with_subpath("a//b").unwrap_err();
    assert!(matches!(err, Error::InvalidSubpathSegment(s) if s.is_empty()));
    assert_eq!(purl.subpath(), None);
}

#[test]
fn test_invalid_namespace_component() {
    let err = PackageUrl::from_str("pkg:type/%2F/name").unwrap_err();
    assert!(matches!(err, Error::InvalidNamespaceComponent(c) if c == "/"));
}

#[test]
fn test_decoding_error() {
    let err = PackageUrl::from_str("pkg:type/name@%C3%28").unwrap_err();
    assert!(matches!(err, Error::DecodingError));
}

#[test]
fn test_new_invalid_type() {
    let err = PackageUrl::new("bad type", "packageurl").unwrap_err();
    assert!(matches!(err, Error::InvalidType(t) if t == "bad type"));
    assert!(PackageUrl::new("cargo", "packageurl").is_ok());
}

#[test]
fn test_clearing_mutators() {
    let mut purl = PackageUrl::from_str("pkg:npm/ns/x@1?k=v#sub").unwrap();
    purl.without_namespace();
    purl.without_version();
    purl.without_subpath();
    purl.clear_qualifiers();
    assert_eq!(purl.to_string(), "pkg:npm/x");
}

#[test]
fn test_scheme_case_insensitive() {
    let purl = PackageUrl::from_str("PKG:npm/x").unwrap();
    assert_eq!(purl.ty(), "npm");
    assert_eq!(purl.to_string(), "pkg:npm/x");
}

#[test]
fn test_unicode_name_round_trip() {
    let purl = PackageUrl::from_str("pkg:generic/caf%C3%A9@1").unwrap();
    assert_eq!(purl.name(), "caf\u{e9}");
    assert_eq!(purl.to_string(), "pkg:generic/caf%C3%A9@1");
}

#[test]
fn test_parse_then_reformat_stable() {
    for raw in [
        "pkg:Golang//a/b/genproto@1%2Bx?Z=9&a=%20#c/./d",
        "pkg:npm/%40angular/animation@12.3.1",
        "pkg:PyPI/Foo_Bar@1",
        "pkg:brew/openssl%25401.1@1.1.1w",
    ] {
        let once = PackageUrl::from_str(raw).unwrap().to_string();
        let twice = PackageUrl::from_str(&once).unwrap().to_string();
        assert_eq!(once, twice);
    }
}

#[test]
fn test_version_with_colon_and_slash() {
    let purl = PackageUrl::from_str("pkg:deb/ubuntu/calc@1:41.1-2ubuntu2").unwrap();
    assert_eq!(purl.version(), Some("1:41.1-2ubuntu2"));
    assert_eq!(purl.to_string(), "pkg:deb/ubuntu/calc@1:41.1-2ubuntu2");
}
