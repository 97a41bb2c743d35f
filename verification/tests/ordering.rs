use semv::proc::{filter_semver, parse_versions, sort_lines};

fn records(inputs: &[&str]) -> Vec<semv::ver::VersionInfo> {
    parse_versions(inputs.iter().map(|s| s.to_string()).collect())
}

fn originals(records: &[semv::ver::VersionInfo]) -> Vec<String> {
    records.iter().map(|r| r.original.clone()).collect()
}

#[test]
fn test_sort_is_idempotent() {
    let once = sort_lines(records(&["b", "2.0.0", "a", "1.0.0-rc.1", "1.0.0"]), false);
    let expect = originals(&once);
    let twice = sort_lines(once, false);
    assert_eq!(originals(&twice), expect);
}

#[test]
fn test_sort_reverse_mirrors_ascending() {
    let input = &["b", "2.0.0", "a", "1.0.0-rc.1", "1.0.0", "v0.3.1"];
    let asc = originals(&sort_lines(records(input), false));
    let desc = originals(&sort_lines(records(input), true));
    let mut mirrored = asc.clone();
    mirrored.reverse();
    assert_eq!(desc, mirrored);
}

#[test]
fn test_sort_non_semver_below_semver() {
    let sorted = originals(&sort_lines(records(&["0.0.1", "zzz", "aaa"]), false));
    assert_eq!(sorted, vec!["aaa", "zzz", "0.0.1"]);
}

#[test]
fn test_sort_pre_release_precedence() {
    let sorted = originals(&sort_lines(
        records(&[
            "1.0.0",
            "1.0.0-alpha",
            "1.0.0-alpha.1",
            "1.0.0-alpha.beta",
            "1.0.0-beta",
            "1.0.0-beta.2",
            "1.0.0-beta.11",
            "1.0.0-rc.1",
        ]),
        false,
    ));
    assert_eq!(
        sorted,
        vec![
            "1.0.0-alpha",
            "1.0.0-alpha.1",
            "1.0.0-alpha.beta",
            "1.0.0-beta",
            "1.0.0-beta.2",
            "1.0.0-beta.11",
            "1.0.0-rc.1",
            "1.0.0",
        ]
    );
}

#[test]
fn test_sort_ignores_build_metadata() {
    let sorted = originals(&sort_lines(records(&["1.0.0+zzz", "1.0.1+aaa"]), false));
    assert_eq!(sorted, vec!["1.0.0+zzz", "1.0.1+aaa"]);
}

#[test]
fn test_filter_valid_partitions_input() {
    let input = &["a", "0.1.2", "b", "1.2.3-alpha.1"];
    let kept = originals(&filter_semver(records(input), false));
    let dropped = originals(&filter_semver(records(input), true));
    assert_eq!(kept, vec!["0.1.2", "1.2.3-alpha.1"]);
    assert_eq!(dropped, vec!["a", "b"]);
    let mut together: Vec<String> = kept;
    together.extend(dropped);
    together.sort();
    let mut all: Vec<String> = input.iter().map(|s| s.to_string()).collect();
    all.sort();
    assert_eq!(together, all);
}

#[test]
fn test_sort_equal_keys_keeps_both() {
    let sorted = originals(&sort_lines(records(&["1.2.3+b", "1.2.3+a"]), false));
    let mut s = sorted.clone();
    s.sort();
    assert_eq!(s, vec!["1.2.3+a", "1.2.3+b"]);
}
