use cts::order::{standing, Standing};
use cts::pattern::{LstFile, LstLine, Pattern};
use cts::prefixes::{build_prefix_set, generate_prefixes};
use cts::set::StringSet;
use cts::wildcards::find_minimal_wildcards;

fn strings(list: &[&str]) -> Vec<String> {
    list.iter().map(|s| s.to_string()).collect()
}

fn set(list: &[&str]) -> StringSet {
    StringSet::from_vec(strings(list))
}

fn matches(pattern: &str, selector: &str) -> bool {
    Pattern::new(
        LstLine {
            selector: pattern.to_string(),
            fails_if: vec![],
        },
        LstFile::Test,
    )
    .matches(selector)
}

fn cover(failed: &[&str], passed: &[&str]) -> Vec<(String, Vec<String>)> {
    find_minimal_wildcards(&set(failed), &set(passed))
}

#[test]
fn nothing_needs_no_cover() {
    assert!(cover(&[], &["webgpu:a:b"]).is_empty());
}

#[test]
fn the_most_specific_wildcard_covers_a_stray_selector() {
    assert_eq!(
        cover(&["webgpu:a,b:x,y:z=1"], &[]),
        vec![("webgpu:a,b:x,y:*".to_string(), strings(&["webgpu:a,b:x,y:z=1"]))]
    );
}

#[test]
fn a_path_wildcard_covers_what_it_descends_to() {
    let failed = ["webgpu:a,b:x", "webgpu:a:z"];
    let wildcards = cover(&failed, &[]);
    assert_eq!(
        wildcards,
        vec![("webgpu:a,*".to_string(), strings(&failed))]
    );
    assert!(failed.iter().all(|s| matches("webgpu:a,*", s)));
}

#[test]
fn every_selector_is_listed_once_under_a_pattern_that_matches_it() {
    let failed = [
        "webgpu:a,b,c:x:1",
        "webgpu:a,b:x:1",
        "webgpu:a,b:y:1",
        "webgpu:d:x:1",
        "webgpu:e",
        "unittests",
        "other:f,g:h",
    ];
    let passed = ["webgpu:d:z:1", "webgpu:e:1", "webgpu:a,c:x"];
    let wildcards = cover(&failed, &passed);
    let mut listed: Vec<&str> = Vec::new();
    for (pattern, selectors) in &wildcards {
        for selector in selectors {
            assert!(matches(pattern, selector));
            listed.push(selector);
        }
        assert!(!passed.iter().any(|s| matches(pattern, s)));
    }
    listed.sort();
    let mut expected = failed.to_vec();
    expected.sort();
    assert_eq!(listed, expected);
    // Most-covering first.
    let sizes: Vec<usize> = wildcards.iter().map(|(_, selectors)| selectors.len()).collect();
    assert!(sizes.windows(2).all(|pair| pair[0] >= pair[1]));
    assert_eq!(wildcards[0].0, "webgpu:a,b,*");
    assert_eq!(wildcards[0].1.len(), 3);
}

/// The size of the smallest set of failing selectors and allowed wildcards that
/// names every failing selector, found by trying them all.
fn fewest(failed: &[&str], passed: &[&str]) -> usize {
    let taken = build_prefix_set(&set(passed));
    let mut names = set(failed);
    for selector in failed {
        for prefix in generate_prefixes(selector) {
            if !taken.contains(&prefix) {
                names.insert(format!("{prefix}*"));
            }
        }
    }
    let names = names.as_slice();
    (0..1usize << names.len())
        .filter(|subset| {
            failed.iter().all(|selector| {
                names
                    .iter()
                    .enumerate()
                    .any(|(i, name)| subset >> i & 1 == 1 && matches(name, selector))
            })
        })
        .map(|subset| subset.count_ones() as usize)
        .min()
        .unwrap()
}

#[test]
fn no_smaller_cover_exists() {
    let cases: [(&[&str], &[&str]); 5] = [
        (&[], &[]),
        (&["w:a,b:x", "w:a:z", "w:c:y"], &["w:d:x"]),
        (&["w:a,b:x", "w:a,c:x", "w:a:x", "w:d:x"], &["w:a,c:y", "w:e:x"]),
        (&["w:a:x", "w:a:y", "v:b:x"], &["w:a:z"]),
        (&["w:a,b:x:1", "w:a,b:x:2", "w:c"], &["w:a,b:y:1", "w:d"]),
    ];
    for (failed, passed) in cases {
        assert_eq!(cover(failed, passed).len(), fewest(failed, passed));
    }
}

#[test]
fn stragglers_are_named_individually() {
    assert_eq!(
        cover(&["webgpu:a:x", "webgpu:a:y"], &["webgpu:a:z"]),
        vec![
            ("webgpu:a:x".to_string(), strings(&["webgpu:a:x"])),
            ("webgpu:a:y".to_string(), strings(&["webgpu:a:y"])),
        ]
    );
}

#[test]
fn a_failing_wildcard_is_named_even_where_it_matches_a_passing_selector() {
    let wildcards = cover(&["webgpu:a:*"], &["webgpu:a:z"]);
    assert_eq!(wildcards[0].0, "webgpu:a:*");
    assert!(matches(&wildcards[0].0, "webgpu:a:z"));
}

#[test]
fn a_wildcard_within_a_prefix_is_read_as_one() {
    let wildcards = cover(&["w:*x:y"], &["w:ax:z"]);
    assert_eq!(wildcards[0].0, "w:*x:*");
    assert!(matches(&wildcards[0].0, "w:ax:z"));
}

#[test]
fn longer_prefixes_are_longer_in_utf8() {
    // Both reach one selector; the second is shorter in characters.
    let wildcards = cover(&["w:ab:x", "w:\u{1f600}:x"], &["w:z:1"]);
    assert_eq!(wildcards.len(), 2);
    assert_eq!(wildcards[0].0, "w:\u{1f600}:*");
    assert_eq!(wildcards[1].0, "w:ab:*");
}

#[test]
fn prefixes_are_cut_at_every_level() {
    assert_eq!(
        generate_prefixes("s:a,b:t,u:c=1,d"),
        ["s:a,b:t,u:", "s:a,b:", "s:", "s:a,", "s:a:"]
    );
    assert_eq!(generate_prefixes("s:a,b"), ["s:", "s:a,", "s:a:"]);
    assert!(generate_prefixes("").is_empty());
    assert!(generate_prefixes("a,b").is_empty());
}

#[test]
fn a_selector_lies_in_its_levels() {
    let levels = build_prefix_set(&set(&["s:a,b:t"]));
    assert_eq!(
        levels.as_slice(),
        [
            "s", "s:", "s:a", "s:a,", "s:a,b", "s:a,b,", "s:a,b:", "s:a,b:t", "s:a,b:t:", "s:a:"
        ]
    );
    for prefix in generate_prefixes("s:a,b:t") {
        assert!(levels.contains(&prefix));
    }
    assert!(build_prefix_set(&StringSet::new()).is_empty());
    let levels = build_prefix_set(&set(&["s:"]));
    assert_eq!(levels.as_slice(), ["s", "s:", "s:,", "s::"]);
}

#[test]
fn sets_are_sorted_and_hold_nothing_twice() {
    let mut s = set(&["b", "a", "b", "", "ab"]);
    assert_eq!(s.as_slice(), ["", "a", "ab", "b"]);
    s.insert("aa".to_string());
    s.insert("a".to_string());
    assert_eq!(s.len(), 5);
    assert!(s.contains("aa") && !s.contains("c"));
    assert_eq!(s.position("ab"), Ok(3));
    assert_eq!(s.position("ac"), Err(4));
    assert!(StringSet::new().is_empty());
}

#[test]
fn strings_are_ordered_by_their_characters() {
    assert_eq!(standing("a", "b"), Standing::Before);
    assert_eq!(standing("b", "ab"), Standing::After);
    assert_eq!(standing("a", "ab"), Standing::Before);
    assert_eq!(standing("ab", "ab"), Standing::Same);
    assert_eq!(standing("\u{ffff}", "\u{1f600}"), Standing::Before);
}
