use cts::accounting::{classify, is_accounted_for, matching_patterns, only_from};
use cts::pattern::{LstFile, LstLine, Pattern};
use cts::report::{report, Palette};

fn line(selector: &str, source: LstFile, fails_if: &[&str]) -> Pattern {
    Pattern::new(
        LstLine {
            selector: selector.to_string(),
            fails_if: strings(fails_if),
        },
        source,
    )
}

fn strings(list: &[&str]) -> Vec<String> {
    list.iter().map(|s| s.to_string()).collect()
}

fn rules() -> Vec<Pattern> {
    vec![
        line("webgpu:a,*", LstFile::Test, &[]),
        line("webgpu:b:*", LstFile::Test, &[]),
        line("webgpu:b:*", LstFile::Fail, &[]),
        line("webgpu:a,x:*", LstFile::Skip, &[]),
    ]
}

#[test]
fn patterns_are_found_in_order() {
    let rules = rules();
    let found = matching_patterns(&rules, "webgpu:a,x:1");
    let sources: Vec<_> = found.iter().map(|p| p.source()).collect();
    assert_eq!(sources, vec![LstFile::Test, LstFile::Skip]);
    assert!(is_accounted_for(&found));
    assert!(matching_patterns(&rules, "webgpu:c").is_empty());
}

#[test]
fn only_one_may_come_from_a_list() {
    let test = line("a*", LstFile::Test, &[]);
    let more = line("b*", LstFile::Test, &[]);
    let fail = line("c*", LstFile::Fail, &[]);
    assert_eq!(
        only_from(&[&test, &fail], LstFile::Fail).map(|p| p.prefix()),
        Some("c")
    );
    assert!(only_from(&[&test, &fail], LstFile::Skip).is_none());
    assert!(only_from(&[&test, &more, &fail], LstFile::Test).is_none());
}

#[test]
fn the_order_of_two_lines_does_not_matter() {
    let test = line("w:a,*", LstFile::Test, &[]);
    let skip = line("w:a,b,*", LstFile::Skip, &[]);
    let fail = line("w:a,*", LstFile::Fail, &[]);
    assert!(is_accounted_for(&[&test, &skip]) && is_accounted_for(&[&skip, &test]));
    assert!(!is_accounted_for(&[&test, &fail]) && !is_accounted_for(&[&fail, &test]));
}

#[test]
fn every_selector_is_in_one_class() {
    let all = strings(&[
        "webgpu:c:1",
        "webgpu:a,x:1",
        "webgpu:b:1",
        "webgpu:a,y:1",
        "webgpu:c:1",
    ]);
    let classes = classify(&all, &rules());
    assert_eq!(classes.passed.as_slice(), ["webgpu:a,x:1", "webgpu:a,y:1"]);
    assert_eq!(classes.unmatched.as_slice(), ["webgpu:c:1"]);
    assert_eq!(classes.duplicated.as_slice(), ["webgpu:b:1"]);
}

#[test]
fn a_report_names_what_is_wrong() {
    let all = strings(&["webgpu:c:1", "webgpu:a,x:1", "webgpu:b:1", "webgpu:b:2"]);
    let report = report(&all, &rules(), &Palette::new(false));
    assert_eq!(
        report.lines,
        [
            "Unmatched selectors (not found in any lst file):",
            "  webgpu:c:*  (1 selectors)",
            "",
            "Duplicated selectors (found in multiple lst files):",
            "  webgpu:b:*  (2 selectors)",
            "",
            "========================================",
            "Summary:",
            "  Total selectors:  4",
            "  Passed:           1",
            "  Failed:           3",
            "    Unmatched:      1",
            "    Duplicated:     2",
            "========================================",
        ]
    );
    assert_eq!(
        report.failure.as_deref(),
        Some("3 CTS selector(s) are unmatched or duplicated")
    );
}

#[test]
fn a_report_without_failures_is_short() {
    let report = report(&strings(&["webgpu:a,x:1"]), &rules(), &Palette::new(true));
    assert_eq!(
        report.lines,
        [
            "========================================",
            "Summary:",
            "  Total selectors:  1",
            "  \x1b[0;32mPassed:\x1b[0m           1",
            "  \x1b[0;31mFailed:\x1b[0m           0",
            "========================================",
        ]
    );
    assert_eq!(report.failure, None);
}
