//! What holds of every report.

use crate::cover_laws::{law_cover_matches_what_it_lists, law_cover_spares_passing};
use crate::coverage::lemma_prefix_shape;
use crate::pattern::{pattern_matches, WILDCARD};
use crate::pattern_laws::law_plain_pattern_is_exact;
use crate::prefixes::{cut_at, law_prefixes_are_the_cuts, prefixes};
use crate::report::{count_line, entry_line, report_lines, section, summary, Palette};
use crate::text::{decimal, digit, pieces};
use crate::wildcards::{best, candidate, cover, lemma_fewer, missed, reached, reaches};
use vstd::prelude::*;

verus! {

/// A number is written in digits.
proof fn lemma_digits(n: nat)
    ensures
        decimal(n).len() > 0,
        forall|i: int| 0 <= i < decimal(n).len() ==> '0' <= #[trigger] decimal(n)[i] <= '9',
    decreases n,
{
    if n >= 10 {
        lemma_digits(n / 10);
    }
}

/// Different numbers are written differently.
pub proof fn law_decimal_is_unique(m: nat, n: nat)
    requires
        decimal(m) == decimal(n),
    ensures
        m == n,
    decreases m,
{
    assert(decimal(m).last() == digit(m % 10));
    assert(decimal(n).last() == digit(n % 10));
    lemma_digits(m / 10);
    lemma_digits(n / 10);
    if m >= 10 && n >= 10 {
        assert(decimal(m).drop_last() == decimal(m / 10));
        assert(decimal(n).drop_last() == decimal(n / 10));
        law_decimal_is_unique(m / 10, n / 10);
    }
}

/// A line for a pattern can be read in one way only.
proof fn lemma_line_is_unique(t: Seq<char>, m: nat, u: Seq<char>, n: nat)
    requires
        "  "@ + t + "  ("@ + decimal(m) + " selectors)"@ == "  "@ + u + "  ("@ + decimal(n)
            + " selectors)"@,
    ensures
        t == u,
        m == n,
{
    reveal_strlit("  ");
    reveal_strlit("  (");
    reveal_strlit(" selectors)");
    lemma_digits(m);
    lemma_digits(n);
    let a = "  "@ + t + "  ("@ + decimal(m) + " selectors)"@;
    let b = "  "@ + u + "  ("@ + decimal(n) + " selectors)"@;
    let len = a.len() as int;
    let dm = decimal(m).len() as int;
    let dn = decimal(n).len() as int;
    assert(a[len - 11 - dm - 1] == '(');
    assert(b[len - 11 - dn - 1] == '(');
    if dm < dn {
        assert(b[len - 11 - dm - 1] == decimal(n)[dn - dm - 1]);
    } else if dn < dm {
        assert(a[len - 11 - dn - 1] == decimal(m)[dm - dn - 1]);
    }
    assert(t == a.subrange(2, 2 + t.len() as int));
    assert(u == b.subrange(2, 2 + u.len() as int));
    assert(decimal(m) == a.subrange(len - 11 - dm, len - 11));
    assert(decimal(n) == b.subrange(len - 11 - dn, len - 11));
    law_decimal_is_unique(m, n);
}

/// What the lines of a section are.
proof fn lemma_section_line(
    palette: Palette,
    heading: Seq<char>,
    selectors: Seq<Seq<char>>,
    passed: Seq<Seq<char>>,
    i: int,
)
    requires
        palette.reset@.len() > 0 ==> palette.reset@.last() != ')',
        0 <= i < section(palette, heading, selectors, passed).len(),
        section(palette, heading, selectors, passed)[i].len() > 0,
        section(palette, heading, selectors, passed)[i].last() == ')',
    ensures
        1 <= i <= cover(selectors, passed, selectors).len(),
        section(palette, heading, selectors, passed)[i] == entry_line(
            cover(selectors, passed, selectors)[i - 1],
        ),
{
    reveal_strlit(":");
    reveal_strlit("");
    let all = cover(selectors, passed, selectors);
    let body = all.map_values(|e: (Seq<char>, Seq<Seq<char>>)| entry_line(e));
    let title = palette.red@ + heading + ":"@ + palette.reset@;
    let lines = section(palette, heading, selectors, passed);
    if i == 0 {
        assert(lines[0] == title);
        if palette.reset@.len() > 0 {
            assert(title.last() == palette.reset@.last());
        } else {
            assert(title.last() == ':');
        }
    } else if i <= all.len() {
        assert(lines[i] == body[i - 1]);
    } else {
        assert(lines[i] == ""@);
    }
}

/// No line of the summary is one for a pattern.
proof fn lemma_summary_line(
    palette: Palette,
    total: nat,
    passed: nat,
    unmatched: nat,
    duplicated: nat,
    i: int,
)
    requires
        0 <= i < summary(palette, total, passed, unmatched, duplicated).len(),
    ensures
        ({
            let line = summary(palette, total, passed, unmatched, duplicated)[i];
            line.len() > 0 && line.last() != ')'
        }),
{
    reveal_strlit("========================================");
    reveal_strlit("Summary:");
    lemma_digits(total);
    lemma_digits(passed);
    lemma_digits(unmatched + duplicated);
    lemma_digits(unmatched);
    lemma_digits(duplicated);
    let lines = summary(palette, total, passed, unmatched, duplicated);
    let u = count_line("    Unmatched:      "@, unmatched);
    let d = count_line("    Duplicated:     "@, duplicated);
    let line = lines[i];
    if i == 2 {
        assert(line.last() == decimal(total).last());
    } else if i == 3 {
        assert(line.last() == decimal(passed).last());
    } else if i == 4 {
        assert(line.last() == decimal(unmatched + duplicated).last());
    } else if 5 <= i < 5 + u.len() {
        assert(line == u[i - 5]);
        assert(line.last() == decimal(unmatched).last());
    } else if 5 + u.len() <= i < 5 + u.len() + d.len() {
        assert(line == d[i - 5 - u.len()]);
        assert(line.last() == decimal(duplicated).last());
    }
}

/// What is printed as a pattern with a number of selectors is an entry of the cover
/// of the unmatched selectors, or of the duplicated ones, by wildcards that spare
/// those that pass, with the number of selectors that it lists.
pub proof fn law_printed_patterns_are_covers(
    palette: Palette,
    total: nat,
    passed: Seq<Seq<char>>,
    unmatched: Seq<Seq<char>>,
    duplicated: Seq<Seq<char>>,
    i: int,
    t: Seq<char>,
    n: nat,
)
    requires
        palette.reset@.len() > 0 ==> palette.reset@.last() != ')',
        0 <= i < report_lines(palette, total, passed, unmatched, duplicated).len(),
        report_lines(palette, total, passed, unmatched, duplicated)[i] == "  "@ + t + "  ("@
            + decimal(n) + " selectors)"@,
    ensures
        (exists|k: int|
            0 <= k < cover(unmatched, passed, unmatched).len() && {
                let entry = #[trigger] cover(unmatched, passed, unmatched)[k];
                entry.0 == t && entry.1.len() == n
            }) || (exists|k: int|
            0 <= k < cover(duplicated, passed, duplicated).len() && {
                let entry = #[trigger] cover(duplicated, passed, duplicated)[k];
                entry.0 == t && entry.1.len() == n
            }),
{
    let first = section(
        palette,
        "Unmatched selectors (not found in any lst file)"@,
        unmatched,
        passed,
    );
    let second = section(
        palette,
        "Duplicated selectors (found in multiple lst files)"@,
        duplicated,
        passed,
    );
    let line = report_lines(palette, total, passed, unmatched, duplicated)[i];
    reveal_strlit(" selectors)");
    assert(line.len() > 0 && line.last() == ')') by {
        assert(line.last() == " selectors)"@.last());
    }
    if i < first.len() {
        assert(line == first[i]);
        lemma_section_line(
            palette,
            "Unmatched selectors (not found in any lst file)"@,
            unmatched,
            passed,
            i,
        );
        let entry = cover(unmatched, passed, unmatched)[i - 1];
        lemma_line_is_unique(t, n, entry.0, entry.1.len());
    } else if i < first.len() + second.len() {
        let k = i - first.len();
        assert(line == second[k]);
        lemma_section_line(
            palette,
            "Duplicated selectors (found in multiple lst files)"@,
            duplicated,
            passed,
            k,
        );
        let entry = cover(duplicated, passed, duplicated)[k - 1];
        lemma_line_is_unique(t, n, entry.0, entry.1.len());
    } else {
        let k = i - first.len() - second.len();
        lemma_summary_line(palette, total, passed.len(), unmatched.len(), duplicated.len(), k);
        assert(line == summary(palette, total, passed.len(), unmatched.len(), duplicated.len())[k]);
    }
}

/// A prefix of a text without a wildcard has none.
proof fn lemma_plain_prefix(t: Seq<char>, p: Seq<char>)
    requires
        prefixes(t).contains(p),
        !t.contains(WILDCARD),
    ensures
        !p.contains(WILDCARD),
{
    lemma_prefix_shape(t, p);
    law_prefixes_are_the_cuts(t, p);
    let k = choose|k: int| 0 <= k < t.len() && #[trigger] cut_at(t, k, p);
    if p.contains(WILDCARD) {
        let i = choose|i: int| 0 <= i < p.len() && p[i] == WILDCARD;
        if i < k {
            assert(t[i] == WILDCARD);
        }
    }
}

/// Where no selector to be covered holds a wildcard or passes, the cover spares
/// those that pass.
proof fn lemma_plain_cover_spares(
    failed: Seq<Seq<char>>,
    passed: Seq<Seq<char>>,
    k: int,
    j: int,
)
    requires
        0 <= k < cover(failed, passed, failed).len(),
        0 <= j < passed.len(),
        forall|s: Seq<char>| #[trigger] failed.contains(s) ==> !s.contains(WILDCARD),
        !failed.contains(passed[j]),
    ensures
        !pattern_matches(pieces(cover(failed, passed, failed)[k].0, WILDCARD), passed[j]),
{
    assert forall|t: Seq<char>| #[trigger] failed.contains(t) implies !pattern_matches(
        pieces(t, WILDCARD),
        passed[j],
    ) by {
        law_plain_pattern_is_exact(t, passed[j]);
    }
    assert forall|p: Seq<char>| #[trigger] candidate(failed, passed, p) implies !p.contains(
        WILDCARD,
    ) by {
        let t = choose|t: int| 0 <= t < failed.len() && #[trigger] prefixes(failed[t]).contains(p);
        assert(failed.contains(failed[t]));
        lemma_plain_prefix(failed[t], p);
    }
    law_cover_spares_passing(failed, passed, k, j);
}

/// No pattern that is printed matches a selector that passes, where none of the
/// failing selectors holds a wildcard.
pub proof fn law_printed_patterns_spare_passing(
    palette: Palette,
    total: nat,
    passed: Seq<Seq<char>>,
    unmatched: Seq<Seq<char>>,
    duplicated: Seq<Seq<char>>,
    i: int,
    t: Seq<char>,
    n: nat,
    s: Seq<char>,
)
    requires
        palette.reset@.len() > 0 ==> palette.reset@.last() != ')',
        0 <= i < report_lines(palette, total, passed, unmatched, duplicated).len(),
        report_lines(palette, total, passed, unmatched, duplicated)[i] == "  "@ + t + "  ("@
            + decimal(n) + " selectors)"@,
        passed.contains(s),
        !unmatched.contains(s) && !duplicated.contains(s),
        forall|f: Seq<char>| #[trigger] unmatched.contains(f) ==> !f.contains(WILDCARD),
        forall|f: Seq<char>| #[trigger] duplicated.contains(f) ==> !f.contains(WILDCARD),
    ensures
        !pattern_matches(pieces(t, WILDCARD), s),
{
    law_printed_patterns_are_covers(
        palette,
        total,
        passed,
        unmatched,
        duplicated,
        i,
        t,
        n,
    );
    let j = choose|j: int| 0 <= j < passed.len() && passed[j] == s;
    if exists|k: int|
        0 <= k < cover(unmatched, passed, unmatched).len() && {
            let entry = #[trigger] cover(unmatched, passed, unmatched)[k];
            entry.0 == t && entry.1.len() == n
        } {
        let k = choose|k: int|
            0 <= k < cover(unmatched, passed, unmatched).len() && {
                let entry = #[trigger] cover(unmatched, passed, unmatched)[k];
                entry.0 == t && entry.1.len() == n
            };
        lemma_plain_cover_spares(unmatched, passed, k, j);
    } else {
        let k = choose|k: int|
            0 <= k < cover(duplicated, passed, duplicated).len() && {
                let entry = #[trigger] cover(duplicated, passed, duplicated)[k];
                entry.0 == t && entry.1.len() == n
            };
        lemma_plain_cover_spares(duplicated, passed, k, j);
    }
}

/// Every selector that is to be covered is listed by an entry.
pub proof fn law_cover_lists_each(
    failed: Seq<Seq<char>>,
    passed: Seq<Seq<char>>,
    left: Seq<Seq<char>>,
    s: Seq<char>,
) -> (i: int)
    requires
        left.contains(s),
    ensures
        0 <= i < cover(failed, passed, left).len(),
        cover(failed, passed, left)[i].1.contains(s),
    decreases left.len(),
{
    let k = choose|k: int| 0 <= k < left.len() && left[k] == s;
    if exists|p: Seq<char>| best(failed, passed, left, p) {
        let p = choose|p: Seq<char>| best(failed, passed, left, p);
        lemma_fewer(left, p);
        let yes = |s: Seq<char>| reaches(p, s);
        let no = |s: Seq<char>| !reaches(p, s);
        if reaches(p, s) {
            left.lemma_filter_contains(yes, k);
            assert(reached(left, p).contains(s));
            0
        } else {
            left.lemma_filter_contains(no, k);
            let i = law_cover_lists_each(failed, passed, missed(left, p), s);
            i + 1
        }
    } else {
        assert(cover(failed, passed, left)[k].1 == seq![s]);
        assert(seq![s][0] == s);
        k
    }
}

/// Every failing selector is matched by a pattern that is printed under the heading
/// of its class.
pub proof fn law_failing_selectors_are_printed(
    palette: Palette,
    total: nat,
    passed: Seq<Seq<char>>,
    unmatched: Seq<Seq<char>>,
    duplicated: Seq<Seq<char>>,
    s: Seq<char>,
) -> (printed: (int, int, Seq<char>, nat))
    requires
        unmatched.contains(s) || duplicated.contains(s),
    ensures
        ({
            let lines = report_lines(palette, total, passed, unmatched, duplicated);
            let (heading, i, t, n) = printed;
            &&& 0 <= heading < i < lines.len()
            &&& lines[i] == "  "@ + t + "  ("@ + decimal(n) + " selectors)"@
            &&& pattern_matches(pieces(t, WILDCARD), s)
            &&& unmatched.contains(s) ==> lines[heading] == palette.red@
                + "Unmatched selectors (not found in any lst file)"@ + ":"@ + palette.reset@
            &&& !unmatched.contains(s) ==> lines[heading] == palette.red@
                + "Duplicated selectors (found in multiple lst files)"@ + ":"@ + palette.reset@
            &&& forall|k: int| heading < k <= i ==> (#[trigger] lines[k]).len() > 0
        }),
{
    let lines = report_lines(palette, total, passed, unmatched, duplicated);
    let first = section(
        palette,
        "Unmatched selectors (not found in any lst file)"@,
        unmatched,
        passed,
    );
    let second = section(
        palette,
        "Duplicated selectors (found in multiple lst files)"@,
        duplicated,
        passed,
    );
    reveal_strlit("  ");
    let line = |e: (Seq<char>, Seq<Seq<char>>)| entry_line(e);
    if unmatched.contains(s) {
        let all = cover(unmatched, passed, unmatched);
        let k = law_cover_lists_each(unmatched, passed, unmatched, s);
        law_cover_matches_what_it_lists(unmatched, passed, unmatched, k, s);
        assert forall|m: int| 0 <= m < all.len() implies #[trigger] lines[m + 1] == entry_line(
            all[m],
        ) by {
            assert(lines[m + 1] == first[m + 1]);
            assert(first[m + 1] == all.map_values(line)[m]);
        }
        assert(lines[0] == first[0]);
        assert forall|m: int| 0 < m <= k + 1 implies (#[trigger] lines[m]).len() > 0 by {
            assert(lines[m - 1 + 1] == entry_line(all[m - 1]));
        }
        (0, k + 1, all[k].0, all[k].1.len())
    } else {
        let all = cover(duplicated, passed, duplicated);
        let k = law_cover_lists_each(duplicated, passed, duplicated, s);
        law_cover_matches_what_it_lists(duplicated, passed, duplicated, k, s);
        let h = first.len() as int;
        assert forall|m: int| 0 <= m < all.len() implies #[trigger] lines[h + m + 1]
            == entry_line(all[m]) by {
            assert(lines[h + m + 1] == second[m + 1]);
            assert(second[m + 1] == all.map_values(line)[m]);
        }
        assert(lines[h] == second[0]);
        assert forall|m: int| h < m <= h + k + 1 implies (#[trigger] lines[m]).len() > 0 by {
            assert(lines[h + (m - h - 1) + 1] == entry_line(all[m - h - 1]));
        }
        (h, h + k + 1, all[k].0, all[k].1.len())
    }
}

/// The report starts with the unmatched selectors, then the duplicated ones, each
/// where there are any: a heading, a line for each entry of their cover, and an
/// empty line.
pub proof fn law_report_starts_with_the_failures(
    palette: Palette,
    total: nat,
    passed: Seq<Seq<char>>,
    unmatched: Seq<Seq<char>>,
    duplicated: Seq<Seq<char>>,
)
    ensures
        ({
            let lines = report_lines(palette, total, passed, unmatched, duplicated);
            let line = |e: (Seq<char>, Seq<Seq<char>>)|
                "  "@ + e.0 + "  ("@ + decimal(e.1.len()) + " selectors)"@;
            let first = if unmatched.len() > 0 {
                seq![
                    palette.red@ + "Unmatched selectors (not found in any lst file)"@ + ":"@
                        + palette.reset@,
                ] + cover(unmatched, passed, unmatched).map_values(line) + seq![""@]
            } else {
                Seq::empty()
            };
            let second = if duplicated.len() > 0 {
                seq![
                    palette.red@ + "Duplicated selectors (found in multiple lst files)"@ + ":"@
                        + palette.reset@,
                ] + cover(duplicated, passed, duplicated).map_values(line) + seq![""@]
            } else {
                Seq::empty()
            };
            (first + second).is_prefix_of(lines)
        }),
{
    let lines = report_lines(palette, total, passed, unmatched, duplicated);
    let line = |e: (Seq<char>, Seq<Seq<char>>)|
        "  "@ + e.0 + "  ("@ + decimal(e.1.len()) + " selectors)"@;
    let u = "Unmatched selectors (not found in any lst file)"@;
    let d = "Duplicated selectors (found in multiple lst files)"@;
    let first = section(palette, u, unmatched, passed);
    let second = section(palette, d, duplicated, passed);
    if unmatched.len() > 0 {
        assert(first == seq![palette.red@ + u + ":"@ + palette.reset@] + cover(
            unmatched,
            passed,
            unmatched,
        ).map_values(line) + seq![""@]);
    }
    if duplicated.len() > 0 {
        assert(second == seq![palette.red@ + d + ":"@ + palette.reset@] + cover(
            duplicated,
            passed,
            duplicated,
        ).map_values(line) + seq![""@]);
    }
    assert(first + second == lines.subrange(0, (first + second).len() as int));
}

/// The report ends in the numbers of selectors: all of them, those that pass, those
/// that fail, and, where there are any, the unmatched and the duplicated ones.
pub proof fn law_report_ends_in_the_numbers(
    palette: Palette,
    total: nat,
    passed: Seq<Seq<char>>,
    unmatched: Seq<Seq<char>>,
    duplicated: Seq<Seq<char>>,
)
    ensures
        ({
            let lines = report_lines(palette, total, passed, unmatched, duplicated);
            let u = unmatched.len();
            let d = duplicated.len();
            let tail = seq![
                "========================================"@,
                "Summary:"@,
                "  Total selectors:  "@ + decimal(total),
                "  "@ + palette.green@ + "Passed:"@ + palette.reset@ + "           "@ + decimal(
                    passed.len(),
                ),
                "  "@ + palette.red@ + "Failed:"@ + palette.reset@ + "           "@ + decimal(
                    u + d,
                ),
            ] + (if u > 0 {
                seq!["    Unmatched:      "@ + decimal(u)]
            } else {
                Seq::empty()
            }) + (if d > 0 {
                seq!["    Duplicated:     "@ + decimal(d)]
            } else {
                Seq::empty()
            }) + seq!["========================================"@];
            &&& tail.is_suffix_of(lines)
            &&& u == 0 && d == 0 ==> lines == tail
        }),
{
    let lines = report_lines(palette, total, passed, unmatched, duplicated);
    let end = summary(palette, total, passed.len(), unmatched.len(), duplicated.len());
    let u = unmatched.len();
    let d = duplicated.len();
    let tail = seq![
        "========================================"@,
        "Summary:"@,
        "  Total selectors:  "@ + decimal(total),
        "  "@ + palette.green@ + "Passed:"@ + palette.reset@ + "           "@ + decimal(
            passed.len(),
        ),
        "  "@ + palette.red@ + "Failed:"@ + palette.reset@ + "           "@ + decimal(u + d),
    ] + (if u > 0 {
        seq!["    Unmatched:      "@ + decimal(u)]
    } else {
        Seq::empty()
    }) + (if d > 0 {
        seq!["    Duplicated:     "@ + decimal(d)]
    } else {
        Seq::empty()
    }) + seq!["========================================"@];
    assert(end == tail);
    assert(tail == lines.subrange(lines.len() - tail.len(), lines.len() as int));
    if u == 0 && d == 0 {
        assert(lines == tail);
    }
}

} // verus!
