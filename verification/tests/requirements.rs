use semv::req::VersionReq;
use semv::ver::VersionInfo;

fn ver(s: &str) -> semv::ver::Version {
    VersionInfo::parse(s).version.unwrap()
}

fn matches(req: &str, v: &str) -> bool {
    VersionReq::parse(req).unwrap().matches(&ver(v))
}

#[test]
fn test_req_parse_errors() {
    for s in ["", "foo", ">=", "1.2.3,", "*, >=1", "* junk", "1.2.3 4", "1.*.2", ">=01.2.3"] {
        assert!(VersionReq::parse(s).is_err(), "{} should be rejected", s);
    }
}

#[test]
fn test_req_parse_accepts() {
    for s in [
        "1.2.3",
        "=1.2.3",
        ">1.2",
        ">= 1.2.0 , < 2.0.0",
        "~1.2",
        "^0.1.4",
        "*",
        "x",
        "1.*",
        "1.2.*",
        "1.*.*",
        ">=1.2.3-alpha.1+meta",
        "  >=1.0.0  ",
    ] {
        assert!(VersionReq::parse(s).is_ok(), "{} should be accepted", s);
    }
}

#[test]
fn test_req_comparator_ops() {
    assert!(matches(">=1.2.0", "1.2.0"));
    assert!(matches(">=1.2.0", "2.0.0"));
    assert!(!matches(">=1.2.0", "1.1.9"));
    assert!(matches(">1.2.0", "1.2.1"));
    assert!(!matches(">1.2.0", "1.2.0"));
    assert!(matches("<2.0.0", "1.9.9"));
    assert!(!matches("<2.0.0", "2.0.0"));
    assert!(matches("<=2.0.0", "2.0.0"));
    assert!(matches("=1.2.3", "1.2.3"));
    assert!(!matches("=1.2.3", "1.2.4"));
    assert!(matches(">=1.2.3, <1.8.0", "1.2.3"));
    assert!(!matches(">=1.2.3, <1.8.0", "1.2.2"));
    assert!(!matches(">=1.2.3, <1.8.0", "1.8.0"));
}

#[test]
fn test_req_tilde_and_caret() {
    assert!(matches("~1.2.3", "1.2.9"));
    assert!(!matches("~1.2.3", "1.3.0"));
    assert!(matches("~1.2", "1.2.9"));
    assert!(!matches("~1.2", "1.3.0"));
    assert!(matches("^1.2.3", "1.9.0"));
    assert!(!matches("^1.2.3", "2.0.0"));
    assert!(matches("^0.1.4", "0.1.9"));
    assert!(!matches("^0.1.4", "0.2.0"));
    assert!(!matches("^0.0.4", "0.0.5"));
    assert!(matches("1.2.3", "1.5.0"));
}

#[test]
fn test_req_wildcards() {
    assert!(matches("*", "0.0.1"));
    assert!(matches("*", "9.9.9"));
    assert!(!matches("*", "1.0.0-alpha"));
    assert!(matches("1.*", "1.9.9"));
    assert!(!matches("1.*", "2.0.0"));
    assert!(matches("1.2.*", "1.2.7"));
    assert!(!matches("1.2.*", "1.3.0"));
}

#[test]
fn test_req_pre_release_rule() {
    assert!(!matches(">=1.0.0", "1.2.3-alpha.1"));
    assert!(matches(">=1.2.3-alpha", "1.2.3-beta"));
    assert!(!matches(">=1.2.3-alpha", "1.2.4-beta"));
    assert!(matches(">=1.2.3-alpha", "1.2.4"));
    assert!(matches("=1.2.3-alpha.1", "1.2.3-alpha.1"));
}

#[test]
fn test_req_wildcard_letters() {
    assert!(matches("1.x", "1.4.0"));
    assert!(!matches("1.x", "2.0.0"));
    assert!(matches("2.X.X", "2.9.9"));
    assert!(matches("X", "3.0.0"));
}

#[test]
fn test_req_ignores_version_build() {
    assert!(matches("=1.2.3", "1.2.3+anything"));
    assert!(matches(">1.2.3+zzz", "1.2.4+aaa"));
}

#[test]
fn test_req_excessive_comparators() {
    let ok: Vec<&str> = std::iter::repeat(">=1.0.0").take(32).collect();
    assert!(VersionReq::parse(&ok.join(", ")).is_ok());
    let too_many: Vec<&str> = std::iter::repeat(">=1.0.0").take(33).collect();
    assert!(VersionReq::parse(&too_many.join(", ")).is_err());
}
