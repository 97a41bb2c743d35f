use semv::ver::{trim_prefix_v, VersionInfo};

#[test]
fn test_parse_failure() {
    let got = VersionInfo::parse("invalid");
    assert_eq!(got.original, "invalid");
    assert!(got.version.is_none());
}

#[test]
fn test_parse_success() {
    let got = VersionInfo::parse("1.2.3");
    assert_eq!(got.original, "1.2.3");
    let v = got.version.unwrap();
    assert_eq!(v.major, 1);
    assert_eq!(v.minor, 2);
    assert_eq!(v.patch, 3);
    assert_eq!(v.pre, "");
    assert_eq!(v.build, "");
}

#[test]
fn test_parse_success_with_v() {
    let got = VersionInfo::parse("v1.2.3");
    assert_eq!(got.original, "v1.2.3");
    let v = got.version.unwrap();
    assert_eq!(v.major, 1);
    assert_eq!(v.minor, 2);
    assert_eq!(v.patch, 3);
    assert_eq!(v.pre, "");
    assert_eq!(v.build, "");
}

#[test]
fn test_parse_pre_and_build() {
    let v = VersionInfo::parse("1.2.3-alpha.1+build.5").version.unwrap();
    assert_eq!(v.major, 1);
    assert_eq!(v.minor, 2);
    assert_eq!(v.patch, 3);
    assert_eq!(v.pre, "alpha.1");
    assert_eq!(v.build, "build.5");
}

#[test]
fn test_parse_rejects_malformed() {
    for s in [
        "",
        "1",
        "1.2",
        "1.2.",
        "1.2.3.4",
        "01.2.3",
        "1.02.3",
        "1.2.3-",
        "1.2.3+",
        "1.2.3-a..b",
        "1.2.3-01",
        "1.2.3 ",
        " 1.2.3",
        "1.2.3-a_b",
        "vv1.2.3",
        "x.y.z",
    ] {
        assert!(VersionInfo::parse(s).version.is_none(), "{} should not parse", s);
    }
}

#[test]
fn test_parse_accepts_edge_forms() {
    for s in [
        "0.0.0",
        "1.2.3-0",
        "1.2.3-0a.5",
        "1.2.3+007",
        "1.2.3--",
        "18446744073709551615.0.0",
    ] {
        assert!(VersionInfo::parse(s).version.is_some(), "{} should parse", s);
    }
}

#[test]
fn test_parse_rejects_component_overflow() {
    assert!(VersionInfo::parse("18446744073709551616.0.0").version.is_none());
}

#[test]
fn test_v_prefix_agrees_with_plain() {
    let a = VersionInfo::parse("1.2.3-rc.1").version.unwrap();
    let b = VersionInfo::parse("v1.2.3-rc.1").version.unwrap();
    assert_eq!(a.major, b.major);
    assert_eq!(a.minor, b.minor);
    assert_eq!(a.patch, b.patch);
    assert_eq!(a.pre, b.pre);
    assert_eq!(a.build, b.build);
    assert!(VersionInfo::parse("junk").version.is_none());
    assert!(VersionInfo::parse("vjunk").version.is_none());
}

#[test]
fn test_trim_prefix_v() {
    assert_eq!(trim_prefix_v("v1.2.3"), "1.2.3");
    assert_eq!(trim_prefix_v("1.2.3"), "1.2.3");
    assert_eq!(trim_prefix_v("vv1"), "v1");
    assert_eq!(trim_prefix_v(""), "");
}
