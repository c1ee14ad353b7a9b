use cts::accounting::is_accounted_for;
use cts::pattern::{LstFile, LstLine, Pattern};
use cts::prefixes::generate_prefixes;
use cts::set::StringSet;
use cts::wildcards::find_minimal_wildcards;

fn pattern(selector: &str) -> Pattern {
    pattern_from(selector, LstFile::Test, &[])
}

fn pattern_from(selector: &str, source: LstFile, fails_if: &[&str]) -> Pattern {
    Pattern::new(
        LstLine {
            selector: selector.to_string(),
            fails_if: fails_if.iter().map(|s| s.to_string()).collect(),
        },
        source,
    )
}

fn set(selectors: &[&str]) -> StringSet {
    StringSet::from_vec(selectors.iter().map(|s| s.to_string()).collect())
}

#[test]
fn test_matches_without_wildcards() {
    let p = pattern("webgpu:api,validation,buffer,mapping:mapAsync,usage:");
    assert!(p.matches("webgpu:api,validation,buffer,mapping:mapAsync,usage:"));
    assert!(!p.matches("webgpu:api,validation,buffer,mapping:mapAsync,usage:extra"));
    assert!(!p.matches("webgpu:api,validation,buffer,mapping:mapAsync,usag"));
    assert!(!p.matches(""));
}

#[test]
fn test_matches_trailing_wildcard() {
    let p = pattern("webgpu:api,validation,*");
    assert!(p.matches("webgpu:api,validation,"));
    assert!(p.matches("webgpu:api,validation,buffer,mapping:mapAsync,usage:"));
    assert!(!p.matches("webgpu:api,validation"));
    assert!(!p.matches("webgpu:api,operation,buffer:"));
}

#[test]
fn test_matches_leading_and_middle_wildcards() {
    let p = pattern("*mapping:*");
    assert!(p.matches("webgpu:api,validation,buffer,mapping:mapAsync"));
    assert!(p.matches("mapping:"));
    assert!(!p.matches("webgpu:api,validation,buffer,mapping"));

    let p = pattern("webgpu:*:mapAsync,*");
    assert!(p.matches("webgpu:api,validation,buffer,mapping:mapAsync,usage:"));
    assert!(!p.matches("webgpu:api,validation,buffer,mapping:unmapped,usage:"));
}

#[test]
fn test_matches_path_wildcard_descends_a_level() {
    // Regression test: a trailing `,*` covers everything below the path it
    // names, including the case level, which starts after a `:`.
    let p = pattern("webgpu:api,validation,createTexture:texture_usage,*");
    assert!(p.matches("webgpu:api,validation,createTexture:texture_usage:dimension=\"2d\""));
    assert!(p.matches("webgpu:api,validation,createTexture:texture_usage,subtest:"));
    // The `:` has to fall on the level boundary the wildcard sits at.
    assert!(
        !p.matches("webgpu:api,validation,createTexture:texture_usage_extra:format=\"r8unorm\"")
    );
    assert!(!p.matches("webgpu:api,validation,createTexture:texture_usageFoo"));
    assert!(!p.matches("webgpu:api,validation,createTexture:texture_usag:"));

    // The same at the file-path level.
    let p = pattern("webgpu:api,validation,buffer,create,*");
    assert!(p.matches("webgpu:api,validation,buffer,create:size:"));
    assert!(p.matches("webgpu:api,validation,buffer,create,more:size:"));
    assert!(!p.matches("webgpu:api,validation,buffer,createFoo:size:"));

    // A `:*` wildcard stays within the one test it names.
    let p = pattern("webgpu:api,validation,createTexture:texture_usage:*");
    assert!(p.matches("webgpu:api,validation,createTexture:texture_usage:dimension=\"2d\""));
    assert!(!p.matches("webgpu:api,validation,createTexture:texture_usage,subtest:"));
}

#[test]
fn test_matches_case_param_wildcard() {
    let p = pattern("webgpu:api,validation,createTexture:texture_usage:isAsync=false;*");
    assert!(p.matches(
        "webgpu:api,validation,createTexture:texture_usage:isAsync=false;format=\"r8unorm\""
    ));
    assert!(!p.matches(
        "webgpu:api,validation,createTexture:texture_usage:isAsync=true;format=\"r8unorm\""
    ));
    // A case-param wildcard is not a path wildcard, so it doesn't descend.
    assert!(!p.matches("webgpu:api,validation,createTexture:texture_usage:isAsync=false:x"));
}

#[test]
fn test_matches_degenerate_wildcards() {
    assert!(pattern("*").matches(""));
    assert!(pattern("*").matches("anything at all"));
    // Consecutive wildcards are equivalent to one.
    assert!(pattern("a**b").matches("ab"));
    assert!(pattern("a**b").matches("axxxb"));
    assert!(!pattern("a**b").matches("a"));
    // The prefix and suffix must not overlap.
    assert!(!pattern("ab*bc").matches("abc"));
    assert!(pattern("ab*bc").matches("abbc"));
}

#[test]
fn test_is_broader_than() {
    let broad = pattern("webgpu:api,validation,*");
    let narrow = pattern("webgpu:api,validation,buffer,*");
    assert!(broad.is_broader_than(&narrow));
    assert!(!narrow.is_broader_than(&broad));
    // A pattern is not broader than itself.
    assert!(!broad.is_broader_than(&pattern("webgpu:api,validation,*")));
    // Siblings are unrelated.
    assert!(!narrow.is_broader_than(&pattern("webgpu:api,validation,texture,*")));
}

#[test]
fn test_is_broader_than_across_a_level_boundary() {
    let broad = pattern("webgpu:api,validation,createTexture:texture_usage,*");
    for narrow in [
        pattern("webgpu:api,validation,createTexture:texture_usage:*"),
        pattern("webgpu:api,validation,createTexture:texture_usage:dimension=\"2d\""),
        pattern("webgpu:api,validation,createTexture:texture_usage,subtest:*"),
    ] {
        assert!(broad.is_broader_than(&narrow));
        assert!(!narrow.is_broader_than(&broad));
    }
    // A pattern is still not broader than itself.
    assert!(!broad.is_broader_than(&pattern(
        "webgpu:api,validation,createTexture:texture_usage,*"
    )));
    // Nor is it broader than a sibling reached over the same boundary.
    assert!(!broad.is_broader_than(&pattern(
        "webgpu:api,validation,createTexture:texture_usage_extra:*"
    )));
}

#[test]
fn test_is_accounted_for() {
    let test = pattern_from("webgpu:a,*", LstFile::Test, &[]);
    let test_narrow = pattern_from("webgpu:a,b,*", LstFile::Test, &[]);
    let test_fails_if = pattern_from("webgpu:a,*", LstFile::Test, &["vulkan"]);
    let fail = pattern_from("webgpu:a,*", LstFile::Fail, &[]);
    let fail_narrow = pattern_from("webgpu:a,b,*", LstFile::Fail, &[]);
    let skip_narrow = pattern_from("webgpu:a,b,*", LstFile::Skip, &[]);

    // Exactly one match is always fine; none or three is never fine.
    assert!(is_accounted_for(&[&test]));
    assert!(!is_accounted_for(&[]));
    assert!(!is_accounted_for(&[&test, &fail, &skip_narrow]));

    // The same pattern in test.lst and fail.lst is ambiguous, unless the
    // test.lst line already says it fails somewhere.
    assert!(!is_accounted_for(&[&test, &fail]));
    assert!(is_accounted_for(&[&test_fails_if, &fail]));

    // One line enumerating an exception to the other is fine, in either
    // direction, and for both overlay files.
    assert!(is_accounted_for(&[&test, &fail_narrow]));
    assert!(is_accounted_for(&[&test, &skip_narrow]));
    assert!(is_accounted_for(&[&test_narrow, &fail]));

    // Two matches that don't involve test.lst are ambiguous.
    assert!(!is_accounted_for(&[&fail, &skip_narrow]));
    // As are two matches within test.lst itself.
    assert!(!is_accounted_for(&[&test, &test_narrow]));
}

#[test]
fn test_generate_prefixes() {
    assert_eq!(
        generate_prefixes("webgpu:api,validation,buffer:mapping"),
        [
            "webgpu:api,validation,buffer:",
            "webgpu:",
            "webgpu:api,validation,",
            "webgpu:api,validation:",
            "webgpu:api,",
            "webgpu:api:",
        ]
    );
    assert_eq!(generate_prefixes("unittests"), Vec::<String>::new());
}

#[test]
fn test_find_minimal_wildcards_covers_everything() {
    let failed = set(&["webgpu:a,b:x", "webgpu:a,b:y", "webgpu:a,c:z"]);
    let wildcards = find_minimal_wildcards(&failed, &StringSet::new());

    // With nothing passing to avoid, one wildcard should cover all three.
    assert_eq!(wildcards.len(), 1);
    assert_eq!(wildcards[0].1.len(), 3);
    let covering = pattern(&wildcards[0].0);
    assert!(failed.as_slice().iter().all(|s| covering.matches(s)));
}

#[test]
fn test_find_minimal_wildcards_avoids_passing_selectors() {
    let failed = set(&["webgpu:a,b:x", "webgpu:a,b:y"]);
    let passed = set(&["webgpu:a,c:z"]);
    let wildcards = find_minimal_wildcards(&failed, &passed);

    for (wildcard, _) in &wildcards {
        let wildcard = pattern(wildcard);
        assert!(
            !passed.as_slice().iter().any(|s| wildcard.matches(s)),
            "`{}` swallows a passing selector",
            wildcard.segments().join("*"),
        );
    }
    // Every failing selector is still covered.
    assert!(failed
        .as_slice()
        .iter()
        .all(|s| wildcards.iter().any(|(w, _)| pattern(w).matches(s))));
}
