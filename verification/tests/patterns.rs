use cts::pattern::{descending_variant, matches_segments, LstFile, LstLine, Pattern};
use cts::text::split;

fn pattern(selector: &str) -> Pattern {
    Pattern::new(
        LstLine {
            selector: selector.to_string(),
            fails_if: vec![],
        },
        LstFile::Test,
    )
}

fn strings(list: &[&str]) -> Vec<String> {
    list.iter().map(|s| s.to_string()).collect()
}

#[test]
fn patterns_are_cut_at_their_wildcards() {
    assert_eq!(pattern("a*b").segments(), ["a", "b"]);
    assert_eq!(pattern("a,b:").segments(), ["a,b:"]);
    assert_eq!(pattern("").segments(), [""]);
    assert_eq!(pattern("**").segments(), ["", "", ""]);
}

#[test]
fn cutting_loses_nothing() {
    for text in ["", "*", "a*b**c", "*\u{e9}*", "plain"] {
        let parts = split(text, '*');
        assert_eq!(parts.join("*"), text);
        assert!(parts.iter().all(|part| !part.contains('*')));
    }
}

#[test]
fn every_pattern_matches_its_own_text() {
    for text in ["", "*", "a*", "a,*", "*a**b*", "webgpu:a,b:c"] {
        assert!(pattern(text).matches(text));
    }
}

#[test]
fn middle_segments_are_taken_as_early_as_possible() {
    assert!(pattern("a*bc*c").matches("abcbcc"));
    assert!(pattern("*ab*ab*").matches("aabaab"));
    assert!(!pattern("*ab*ab*").matches("aabab_".get(0..3).unwrap()));
    assert!(!pattern("a*b*b").matches("ab"));
    assert!(pattern("\u{e9}*\u{1f600}").matches("\u{e9}x\u{1f600}"));
}

#[test]
fn only_a_single_trailing_wildcard_descends() {
    assert!(pattern("a,*").matches("a:x"));
    assert!(!pattern("a,**").matches("a:x"));
    assert!(pattern("a,**").matches("a,x"));
    assert!(pattern("*a,*").matches("za:x"));
}

#[test]
fn the_variant_descends_past_the_boundary() {
    assert_eq!(
        descending_variant(&strings(&["w:a,", ""])),
        Some(strings(&["w:a:", ""]))
    );
    assert_eq!(
        descending_variant(&strings(&["x", ",", ""])),
        Some(strings(&["x", ":", ""]))
    );
    assert_eq!(descending_variant(&strings(&["w:a:", ""])), None);
    assert_eq!(descending_variant(&strings(&["w:a,", "b"])), None);
    assert_eq!(descending_variant(&strings(&["w:a,"])), None);
    assert_eq!(descending_variant(&strings(&["", ""])), None);
    assert_eq!(descending_variant(&[]), None);
}

#[test]
fn segments_match_in_their_order() {
    assert!(matches_segments(&strings(&["a", "b", "c"]), "a1b2c"));
    assert!(!matches_segments(&strings(&["a", "b", "c"]), "a1c2b"));
    assert!(!matches_segments(&strings(&["a", "a"]), "a"));
}

#[test]
fn prefixes_stand_before_the_first_wildcard() {
    assert_eq!(pattern("w:a,*").prefix(), "w:a,");
    assert_eq!(pattern("w:a,*").descending_prefix(), Some("w:a:"));
    assert_eq!(pattern("w:a:*").descending_prefix(), None);
    assert_eq!(pattern("w:*,a,*").prefix(), "w:");
    assert_eq!(pattern("w:*,a,*").descending_prefix(), None);
}

#[test]
fn broader_patterns_are_ordered() {
    let a = pattern("w:a,*");
    let b = pattern("w:a:b,*");
    let c = pattern("w:a:b:c");
    assert!(a.is_broader_than(&b) && b.is_broader_than(&c) && a.is_broader_than(&c));
    assert!(!b.is_broader_than(&a) && !c.is_broader_than(&b));
    // The broader one matches what the narrower one matches, and its own prefix.
    for s in ["w:a:b,x", "w:a:b:", "w:a:b:c"] {
        assert!(b.matches(s) && a.matches(s));
    }
    assert!(a.matches("w:a,") && !b.matches("w:a,"));
    // Of two of which neither matches all that the other does, neither is broader.
    let d = pattern("w:a:*");
    let e = pattern("w:a,b,*");
    assert!(a.is_broader_than(&d) && a.is_broader_than(&e));
    assert!(!d.is_broader_than(&e) && !e.is_broader_than(&d));
}
