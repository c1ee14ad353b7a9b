//! Whether the lines of the `.lst` files account for a selector.

use crate::order::ascending;
use crate::pattern::{broader, pattern_matches, LstFile, Pattern, PatternModel};
use crate::pattern_laws::law_broader_irreflexive;
use crate::set::StringSet;
use crate::text::texts;
use vstd::prelude::*;

verus! {

/// What each of a list of patterns says.
pub open spec fn models(patterns: Seq<&Pattern>) -> Seq<PatternModel> {
    patterns.map_values(|p: &Pattern| p@)
}

/// What each of a list of patterns says.
pub open spec fn all_models(patterns: Seq<Pattern>) -> Seq<PatternModel> {
    patterns.map_values(|p: Pattern| p@)
}

/// Those of the patterns that come from `file`.
pub open spec fn from(patterns: Seq<PatternModel>, file: LstFile) -> Seq<PatternModel> {
    patterns.filter(|m: PatternModel| m.source == file)
}

/// Those of the patterns that match `selector`.
pub open spec fn matching(patterns: Seq<PatternModel>, selector: Seq<char>) -> Seq<PatternModel> {
    patterns.filter(|m: PatternModel| pattern_matches(m.segments, selector))
}

/// Whether a line of `test.lst` and a line of an overlay file say something
/// consistent: the first already says the test fails on some backend, or one
/// enumerates an exception to the other.
pub open spec fn consistent(test: PatternModel, overlay: PatternModel) -> bool {
    &&& test.source == LstFile::Test
    &&& overlay.source != LstFile::Test
    &&& {
        ||| test.has_fails_if
        ||| broader(overlay.segments, test.segments)
        ||| broader(test.segments, overlay.segments)
    }
}

/// Whether the patterns that match a selector give it exactly one unambiguous
/// expectation.
pub open spec fn accounted(patterns: Seq<PatternModel>) -> bool {
    ||| patterns.len() == 1
    ||| patterns.len() == 2 && (consistent(patterns[0], patterns[1]) || consistent(
        patterns[1],
        patterns[0],
    ))
}

/// The single matching pattern from `file`, or `None` if there isn't exactly one.
pub fn only_from<'a>(matching: &[&'a Pattern], file: LstFile) -> (only: Option<&'a Pattern>)
    ensures
        match only {
            Some(pattern) => from(models(matching@), file) == seq![pattern@],
            None => from(models(matching@), file).len() != 1,
        },
{
    let ghost all = models(matching@);
    let ghost pred = |m: PatternModel| m.source == file;
    let mut found: Option<&'a Pattern> = None;
    let mut several: bool = false;
    let mut i: usize = 0;
    reveal(Seq::filter);
    while i < matching.len()
        invariant
            all == models(matching@),
            pred == (|m: PatternModel| m.source == file),
            i <= matching@.len(),
            match found {
                Some(pattern) => if several {
                    all.take(i as int).filter(pred).len() > 1
                } else {
                    all.take(i as int).filter(pred) == seq![pattern@]
                },
                None => !several && all.take(i as int).filter(pred) == Seq::<
                    PatternModel,
                >::empty(),
            },
        decreases matching@.len() - i,
    {
        proof {
            assert(all.take(i + 1) == all.take(i as int).push(all[i as int]));
            all.take(i as int).lemma_filter_push(all[i as int], pred);
        }
        if matching[i].source() == file {
            if found.is_some() {
                several = true;
            } else {
                found = Some(matching[i]);
            }
        }
        i = i + 1;
    }
    assert(all.take(i as int) == all);
    if several {
        None
    } else {
        found
    }
}

/// Whether the patterns matching a selector give it exactly one unambiguous
/// expectation.
pub fn is_accounted_for(matching: &[&Pattern]) -> (yes: bool)
    ensures
        yes == accounted(models(matching@)),
{
    if matching.len() == 1 {
        return true;
    }
    if matching.len() != 2 {
        return false;
    }
    let ghost all = models(matching@);
    proof {
        lemma_pair(all, LstFile::Test);
        lemma_pair(all, LstFile::Fail);
        lemma_pair(all, LstFile::Skip);
    }
    // A selector may appear in `test.lst` and in one of the overlay files, so
    // long as the two say something consistent.
    let test = match only_from(matching, LstFile::Test) {
        Some(test) => test,
        None => {
            return false;
        },
    };
    let overlay = match only_from(matching, LstFile::Fail) {
        Some(overlay) => overlay,
        None => match only_from(matching, LstFile::Skip) {
            Some(overlay) => overlay,
            None => {
                return false;
            },
        },
    };
    // The `test.lst` line already says the test fails on some backend, or one
    // line enumerates an exception to the other: either passes are enumerated
    // in `test.lst` under a broader failing/skipped pattern, or a subset of a
    // broader passing pattern is failing or skipped.
    test.has_fails_if() || overlay.is_broader_than(test) || test.is_broader_than(overlay)
}

/// The order in which the lines are found does not matter.
pub proof fn law_order_does_not_matter(a: PatternModel, b: PatternModel)
    ensures
        accounted(seq![a, b]) == accounted(seq![b, a]),
{
}

/// Two lines account for a selector only if exactly one of them is in `test.lst`.
pub proof fn law_pair_involves_test_list_once(a: PatternModel, b: PatternModel)
    requires
        accounted(seq![a, b]),
    ensures
        (a.source == LstFile::Test) != (b.source == LstFile::Test),
{
}

/// The same pattern in `test.lst` and in an overlay file is ambiguous, unless
/// the `test.lst` line already says it fails somewhere.
pub proof fn law_same_pattern_is_ambiguous(test: PatternModel, overlay: PatternModel)
    requires
        test.source == LstFile::Test,
        overlay.source != LstFile::Test,
        test.segments == overlay.segments,
        test.segments.len() > 0,
    ensures
        accounted(seq![test, overlay]) == test.has_fails_if,
{
    law_broader_irreflexive(test.segments);
}

/// A line of `test.lst` and a line of an overlay file account for a selector just
/// where the first already says that the test fails somewhere, or one of the two
/// is broader than the other, whichever it is.
pub proof fn law_exceptions_either_way_are_fine(test: PatternModel, overlay: PatternModel)
    requires
        test.source == LstFile::Test,
        overlay.source == LstFile::Fail || overlay.source == LstFile::Skip,
    ensures
        accounted(seq![test, overlay]) <==> test.has_fails_if || broader(
            test.segments,
            overlay.segments,
        ) || broader(overlay.segments, test.segments),
        accounted(seq![overlay, test]) <==> test.has_fails_if || broader(
            test.segments,
            overlay.segments,
        ) || broader(overlay.segments, test.segments),
{
}

/// It does not matter which of the overlay files a line is in.
pub proof fn law_overlays_are_alike(test: PatternModel, overlay: PatternModel)
    requires
        overlay.source != LstFile::Test,
    ensures
        accounted(seq![test, PatternModel { source: LstFile::Fail, ..overlay }]) == accounted(
            seq![test, PatternModel { source: LstFile::Skip, ..overlay }],
        ),
        accounted(seq![test, overlay]) == accounted(
            seq![test, PatternModel { source: LstFile::Fail, ..overlay }],
        ),
{
}

/// Exactly one line is always fine; none, or more than two, never is.
pub proof fn law_one_or_two_lines(patterns: Seq<PatternModel>)
    ensures
        patterns.len() == 1 ==> accounted(patterns),
        patterns.len() == 0 || patterns.len() > 2 ==> !accounted(patterns),
{
}

/// A line counts among those from a file just where it comes from it, and among
/// those that match a selector just where it matches it.
pub proof fn law_lines_count_one_by_one(
    patterns: Seq<PatternModel>,
    line: PatternModel,
    file: LstFile,
    selector: Seq<char>,
)
    ensures
        from(Seq::empty(), file).len() == 0,
        from(patterns.push(line), file) == if line.source == file {
            from(patterns, file).push(line)
        } else {
            from(patterns, file)
        },
        matching(Seq::empty(), selector).len() == 0,
        matching(patterns.push(line), selector) == if pattern_matches(line.segments, selector) {
            matching(patterns, selector).push(line)
        } else {
            matching(patterns, selector)
        },
{
    reveal(Seq::filter);
    patterns.lemma_filter_push(line, |m: PatternModel| m.source == file);
    patterns.lemma_filter_push(line, |m: PatternModel| pattern_matches(m.segments, selector));
}

/// Nothing is kept where nothing matches.
proof fn lemma_none_matching(patterns: Seq<PatternModel>, selector: Seq<char>)
    requires
        forall|i: int|
            0 <= i < patterns.len() ==> !pattern_matches(
                (#[trigger] patterns[i]).segments,
                selector,
            ),
    ensures
        matching(patterns, selector) == Seq::<PatternModel>::empty(),
{
    let pred = |m: PatternModel| pattern_matches(m.segments, selector);
    let found = matching(patterns, selector);
    if found.len() > 0 {
        patterns.lemma_filter_pred(pred, 0);
        patterns.lemma_filter_contains_rev(pred, found[0]);
        let i = choose|i: int| 0 <= i < patterns.len() && patterns[i] == found[0];
        assert(pattern_matches(patterns[i].segments, selector));
    }
}

/// What matches is what matches before a line, the line where it matches, and what
/// matches behind it.
proof fn lemma_matching_parted(patterns: Seq<PatternModel>, selector: Seq<char>, i: int)
    requires
        0 <= i < patterns.len(),
    ensures
        matching(patterns, selector) == matching(patterns.take(i), selector) + (
        if pattern_matches(patterns[i].segments, selector) {
            seq![patterns[i]]
        } else {
            Seq::empty()
        }) + matching(patterns.skip(i + 1), selector),
{
    let pred = |m: PatternModel| pattern_matches(m.segments, selector);
    let head = patterns.take(i);
    let tail = patterns.skip(i + 1);
    assert(patterns == head.push(patterns[i]) + tail);
    Seq::filter_distributes_over_add(head.push(patterns[i]), tail, pred);
    head.lemma_filter_push(patterns[i], pred);
    if !pred(patterns[i]) {
        assert(head.filter(pred) + Seq::<PatternModel>::empty() == head.filter(pred));
    } else {
        assert(head.filter(pred).push(patterns[i]) == head.filter(pred) + seq![patterns[i]]);
    }
}

/// A selector that no line matches is unmatched, and no other is.
pub proof fn law_unmatched_is_matched_by_no_line(patterns: Seq<PatternModel>, selector: Seq<char>)
    ensures
        is_unmatched(patterns, selector) <==> forall|i: int|
            0 <= i < patterns.len() ==> !pattern_matches(
                (#[trigger] patterns[i]).segments,
                selector,
            ),
{
    if is_unmatched(patterns, selector) {
        assert forall|i: int| 0 <= i < patterns.len() implies !pattern_matches(
            (#[trigger] patterns[i]).segments,
            selector,
        ) by {
            lemma_matching_parted(patterns, selector, i);
        }
    } else if forall|i: int|
        0 <= i < patterns.len() ==> !pattern_matches((#[trigger] patterns[i]).segments, selector) {
        lemma_none_matching(patterns, selector);
    }
}

/// A selector that exactly one line matches passes.
pub proof fn law_one_line_passes(patterns: Seq<PatternModel>, selector: Seq<char>, i: int)
    requires
        0 <= i < patterns.len(),
        forall|k: int|
            0 <= k < patterns.len() ==> (pattern_matches(
                (#[trigger] patterns[k]).segments,
                selector,
            ) <==> k == i),
    ensures
        passes(patterns, selector),
{
    lemma_matching_parted(patterns, selector, i);
    lemma_none_matching(patterns.take(i), selector);
    lemma_none_matching(patterns.skip(i + 1), selector);
}

/// A selector that exactly two lines match passes just where one is in `test.lst`,
/// the other is not, and the two say something consistent.
pub proof fn law_two_lines_pass_if_consistent(
    patterns: Seq<PatternModel>,
    selector: Seq<char>,
    i: int,
    j: int,
)
    requires
        0 <= i < j < patterns.len(),
        forall|k: int|
            0 <= k < patterns.len() ==> (pattern_matches(
                (#[trigger] patterns[k]).segments,
                selector,
            ) <==> k == i || k == j),
    ensures
        ({
            let a = patterns[i];
            let b = patterns[j];
            &&& passes(patterns, selector) <==> {
                &&& (a.source == LstFile::Test) != (b.source == LstFile::Test)
                &&& {
                    ||| a.source == LstFile::Test && a.has_fails_if
                    ||| b.source == LstFile::Test && b.has_fails_if
                    ||| broader(a.segments, b.segments)
                    ||| broader(b.segments, a.segments)
                }
            }
            &&& is_duplicated(patterns, selector) <==> !passes(patterns, selector)
        }),
{
    let tail = patterns.skip(i + 1);
    lemma_matching_parted(patterns, selector, i);
    lemma_none_matching(patterns.take(i), selector);
    let m = j - i - 1;
    assert(tail[m] == patterns[j]);
    lemma_matching_parted(tail, selector, m);
    lemma_none_matching(tail.take(m), selector);
    lemma_none_matching(tail.skip(m + 1), selector);
    assert(matching(tail, selector) == seq![patterns[j]]);
    assert(matching(patterns, selector) == seq![patterns[i], patterns[j]]);
}

/// A selector that three lines match, or more, is duplicated.
pub proof fn law_three_lines_are_ambiguous(
    patterns: Seq<PatternModel>,
    selector: Seq<char>,
    i: int,
    j: int,
    k: int,
)
    requires
        0 <= i < j < k < patterns.len(),
        pattern_matches(patterns[i].segments, selector),
        pattern_matches(patterns[j].segments, selector),
        pattern_matches(patterns[k].segments, selector),
    ensures
        is_duplicated(patterns, selector),
        !passes(patterns, selector),
{
    let tail = patterns.skip(i + 1);
    let end = tail.skip(j - i);
    lemma_matching_parted(patterns, selector, i);
    assert(tail[j - i - 1] == patterns[j]);
    lemma_matching_parted(tail, selector, j - i - 1);
    assert(end[k - j - 1] == patterns[k]);
    lemma_matching_parted(end, selector, k - j - 1);
}

/// Every selector is in exactly one class.
pub proof fn law_one_class_each(patterns: Seq<PatternModel>, selector: Seq<char>)
    ensures
        passes(patterns, selector) || is_unmatched(patterns, selector) || is_duplicated(
            patterns,
            selector,
        ),
        !(passes(patterns, selector) && is_unmatched(patterns, selector)),
        !(passes(patterns, selector) && is_duplicated(patterns, selector)),
        !(is_unmatched(patterns, selector) && is_duplicated(patterns, selector)),
{
}

/// What comes from `file` of two patterns.
proof fn lemma_pair(all: Seq<PatternModel>, file: LstFile)
    requires
        all.len() == 2,
    ensures
        from(all, file).len() == if all[0].source == file {
            1int
        } else {
            0
        } + if all[1].source == file {
            1int
        } else {
            0
        },
        from(all, file).len() == 1 ==> from(all, file)[0] == if all[0].source == file {
            all[0]
        } else {
            all[1]
        },
{
    reveal_with_fuel(Seq::filter, 3);
    assert(all.drop_last() == seq![all[0]]);
    assert(all.drop_last().drop_last() == Seq::<PatternModel>::empty());
}

/// The patterns that match `selector`, in their order.
pub fn matching_patterns<'a>(patterns: &'a [Pattern], selector: &str) -> (found: Vec<&'a Pattern>)
    ensures
        models(found@) == matching(all_models(patterns@), selector@),
{
    let ghost all = all_models(patterns@);
    let ghost pred = |m: PatternModel| pattern_matches(m.segments, selector@);
    let mut found: Vec<&'a Pattern> = Vec::new();
    let mut i: usize = 0;
    reveal(Seq::filter);
    assert(models(found@) == all.take(0).filter(pred));
    while i < patterns.len()
        invariant
            all == all_models(patterns@),
            pred == (|m: PatternModel| pattern_matches(m.segments, selector@)),
            i <= patterns@.len(),
            models(found@) == all.take(i as int).filter(pred),
        decreases patterns@.len() - i,
    {
        let ghost before = found@;
        proof {
            assert(all.take(i + 1) == all.take(i as int).push(all[i as int]));
            all.take(i as int).lemma_filter_push(all[i as int], pred);
        }
        if patterns[i].matches(selector) {
            found.push(&patterns[i]);
            assert(models(found@) == models(before).push(all[i as int]));
        }
        i = i + 1;
    }
    assert(all.take(i as int) == all);
    found
}

/// The selectors that are accounted for, those that no line matches, and those
/// with an ambiguous expectation.
pub struct Classes {
    pub passed: StringSet,
    pub unmatched: StringSet,
    pub duplicated: StringSet,
}

/// Whether `selector` passes.
pub open spec fn passes(patterns: Seq<PatternModel>, selector: Seq<char>) -> bool {
    accounted(matching(patterns, selector))
}

/// Whether no line matches `selector`.
pub open spec fn is_unmatched(patterns: Seq<PatternModel>, selector: Seq<char>) -> bool {
    matching(patterns, selector).len() == 0
}

/// Whether the lines that match `selector` leave its expectation ambiguous.
pub open spec fn is_duplicated(patterns: Seq<PatternModel>, selector: Seq<char>) -> bool {
    matching(patterns, selector).len() > 0 && !accounted(matching(patterns, selector))
}

/// Classify every selector.
pub fn classify(all_selectors: &[String], patterns: &[Pattern]) -> (classes: Classes)
    ensures
        ascending(classes.passed@),
        ascending(classes.unmatched@),
        ascending(classes.duplicated@),
        forall|s: Seq<char>| #[trigger]
            classes.passed@.contains(s) <==> texts(all_selectors@).contains(s) && passes(
                all_models(patterns@),
                s,
            ),
        forall|s: Seq<char>| #[trigger]
            classes.unmatched@.contains(s) <==> texts(all_selectors@).contains(s) && is_unmatched(
                all_models(patterns@),
                s,
            ),
        forall|s: Seq<char>| #[trigger]
            classes.duplicated@.contains(s) <==> texts(all_selectors@).contains(s)
                && is_duplicated(all_models(patterns@), s),
        classes.passed@.len() + classes.unmatched@.len() + classes.duplicated@.len()
            <= all_selectors@.len(),
{
    let ghost all = texts(all_selectors@);
    let ghost rules = all_models(patterns@);
    let mut passed = StringSet::new();
    let mut unmatched = StringSet::new();
    let mut duplicated = StringSet::new();
    let mut i: usize = 0;
    while i < all_selectors.len()
        invariant
            all == texts(all_selectors@),
            rules == all_models(patterns@),
            i <= all_selectors@.len(),
            forall|s: Seq<char>| #[trigger]
                passed@.contains(s) <==> all.take(i as int).contains(s) && passes(rules, s),
            forall|s: Seq<char>| #[trigger]
                unmatched@.contains(s) <==> all.take(i as int).contains(s) && is_unmatched(
                    rules,
                    s,
                ),
            forall|s: Seq<char>| #[trigger]
                duplicated@.contains(s) <==> all.take(i as int).contains(s) && is_duplicated(
                    rules,
                    s,
                ),
            ascending(passed@),
            ascending(unmatched@),
            ascending(duplicated@),
            passed@.len() + unmatched@.len() + duplicated@.len() <= i,
        decreases all_selectors@.len() - i,
    {
        let ghost selector = all[i as int];
        let ghost before = all.take(i as int);
        let ghost was = (passed@, unmatched@, duplicated@);
        let found = matching_patterns(patterns, &all_selectors[i]);
        if is_accounted_for(&found) {
            passed.insert(all_selectors[i].clone());
        } else if found.len() == 0 {
            unmatched.insert(all_selectors[i].clone());
        } else {
            duplicated.insert(all_selectors[i].clone());
        }
        proof {
            let now = all.take(i + 1);
            assert(now == before.push(selector));
            assert(models(found@).len() == found@.len());
            assert forall|s: Seq<char>| #[trigger] now.contains(s) <==> before.contains(s) || s
                == selector by {
                if before.contains(s) {
                    let k = choose|k: int| 0 <= k < before.len() && before[k] == s;
                    assert(now[k] == s);
                }
                assert(now[i as int] == selector);
            }
            assert forall|s: Seq<char>| #[trigger] passed@.contains(s) <==> now.contains(s)
                && passes(rules, s) by {
                assert(passed@.to_set().contains(s) == passed@.contains(s));
                assert(was.0.to_set().contains(s) == was.0.contains(s));
            }
            assert forall|s: Seq<char>| #[trigger] unmatched@.contains(s) <==> now.contains(s)
                && is_unmatched(rules, s) by {
                assert(unmatched@.to_set().contains(s) == unmatched@.contains(s));
                assert(was.1.to_set().contains(s) == was.1.contains(s));
            }
            assert forall|s: Seq<char>| #[trigger] duplicated@.contains(s) <==> now.contains(s)
                && is_duplicated(rules, s) by {
                assert(duplicated@.to_set().contains(s) == duplicated@.contains(s));
                assert(was.2.to_set().contains(s) == was.2.contains(s));
            }
        }
        i = i + 1;
    }
    assert(all.take(i as int) == all);
    Classes { passed, unmatched, duplicated }
}

} // verus!
