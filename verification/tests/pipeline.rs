use semv::proc::{filter_by_requirement, filter_semver, format_output, parse_versions, sort_lines};
use semv::req::VersionReq;

fn run_pipeline(
    inputs: &[&str],
    nonsemver: bool,
    req: Option<&str>,
    sort: Option<bool>,
    verbose: bool,
) -> String {
    let lines: Vec<String> = inputs.iter().map(|s| s.to_string()).collect();
    let mut records = filter_semver(parse_versions(lines), nonsemver);
    if let Some(expr) = req {
        let q = VersionReq::parse(expr).unwrap();
        records = filter_by_requirement(records, &q);
    }
    if let Some(reverse) = sort {
        records = sort_lines(records, reverse);
    }
    let mut out = String::new();
    for line in format_output(records, verbose) {
        out.push_str(&line);
        out.push('\n');
    }
    out
}

#[test]
fn test_filter_semver_args() {
    assert_eq!(
        run_pipeline(&["a", "0.1.2", "b", "1.2.3-alpha.1"], false, None, None, false),
        "0.1.2\n1.2.3-alpha.1\n"
    );
}

#[test]
fn test_filter_non_semver_stdin() {
    assert_eq!(
        run_pipeline(&["a", "0.1.2", "b", "1.2.3-alpha.1"], true, None, None, false),
        "a\nb\n"
    );
}

#[test]
fn test_filter_semver_tag_args() {
    assert_eq!(
        run_pipeline(&["a", "v0.1.2", "b", "1.2.3-alpha.1"], false, None, None, false),
        "v0.1.2\n1.2.3-alpha.1\n"
    );
}

#[test]
fn test_sort() {
    assert_eq!(
        run_pipeline(&["1.2.3", "1.2.2", "2.0.0"], false, None, Some(false), false),
        "1.2.2\n1.2.3\n2.0.0\n"
    );
}

#[test]
fn test_sort_reverse() {
    assert_eq!(
        run_pipeline(&["1.2.3", "1.2.2", "2.0.0"], false, None, Some(true), false),
        "2.0.0\n1.2.3\n1.2.2\n"
    );
}

#[test]
fn test_sort_tags() {
    assert_eq!(
        run_pipeline(&["v1.2.3", "v1.2.2", "v2.0.0"], false, None, Some(false), false),
        "v1.2.2\nv1.2.3\nv2.0.0\n"
    );
}

#[test]
fn test_requirement() {
    assert_eq!(
        run_pipeline(&["1.1.0", "1.3.0", "2.0.0"], false, Some(">=1.2.0"), None, false),
        "1.3.0\n2.0.0\n"
    );
}

#[test]
fn test_verbose() {
    assert_eq!(
        run_pipeline(&["1.1.0", "1.3.0-alpha.1", "2.0.0-alpha.1+dev"], false, None, None, true),
        "{\"build\":\"\",\"major\":1,\"minor\":1,\"original\":\"1.1.0\",\"patch\":0,\"pre\":\"\"}\n{\"build\":\"\",\"major\":1,\"minor\":3,\"original\":\"1.3.0-alpha.1\",\"patch\":0,\"pre\":\"alpha.1\"}\n{\"build\":\"dev\",\"major\":2,\"minor\":0,\"original\":\"2.0.0-alpha.1+dev\",\"patch\":0,\"pre\":\"alpha.1\"}\n"
    );
}

#[test]
fn test_requirement_sort_verbose() {
    assert_eq!(
        run_pipeline(
            &["3.0.0", "1.0.0", "2.1.3", "1.5.0"],
            false,
            Some(">1.2.0"),
            Some(false),
            true
        ),
        "{\"build\":\"\",\"major\":1,\"minor\":5,\"original\":\"1.5.0\",\"patch\":0,\"pre\":\"\"}\n{\"build\":\"\",\"major\":2,\"minor\":1,\"original\":\"2.1.3\",\"patch\":3,\"pre\":\"\"}\n{\"build\":\"\",\"major\":3,\"minor\":0,\"original\":\"3.0.0\",\"patch\":0,\"pre\":\"\"}\n"
    );
}

#[test]
fn test_empty_input() {
    assert_eq!(run_pipeline(&[], false, None, Some(false), true), "");
}

#[test]
fn test_requirement_keeps_non_semver() {
    assert_eq!(
        run_pipeline(&["junk", "1.1.0", "2.0.0"], true, Some(">=1.5.0"), None, false),
        "junk\n"
    );
}

#[test]
fn test_verbose_non_semver_has_no_version_fields() {
    let lines: Vec<String> = vec!["not-a-version".to_string()];
    let records = parse_versions(lines);
    let out = format_output(records, true);
    assert_eq!(out, vec!["{\"original\":\"not-a-version\"}".to_string()]);
}

#[test]
fn test_verbose_escapes_original() {
    let lines: Vec<String> = vec!["a\"b\\c".to_string()];
    let records = parse_versions(lines);
    let out = format_output(records, true);
    assert_eq!(out, vec!["{\"original\":\"a\\\"b\\\\c\"}".to_string()]);
}
