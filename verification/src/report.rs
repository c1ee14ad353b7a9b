//! The report on the selectors that the `.lst` files do not account for.

use crate::accounting::{all_models, classify, is_duplicated, is_unmatched, passes, Classes};
use crate::order::ascending;
use crate::pattern::Pattern;
use crate::set::StringSet;
use crate::text::{decimal, texts, to_decimal};
use crate::wildcards::{cover, entries, find_minimal_wildcards};
use vstd::prelude::*;

verus! {

/// How the report is coloured.
pub struct Palette {
    pub red: &'static str,
    pub green: &'static str,
    pub reset: &'static str,
}

impl Palette {
    /// Escape sequences for a terminal, and nothing for anything else.
    pub fn new(is_terminal: bool) -> (palette: Self)
        ensures
            palette.red@ == if is_terminal {
                "\x1b[0;31m"@
            } else {
                ""@
            },
            palette.green@ == if is_terminal {
                "\x1b[0;32m"@
            } else {
                ""@
            },
            palette.reset@ == if is_terminal {
                "\x1b[0m"@
            } else {
                ""@
            },
    {
        if is_terminal {
            Palette { red: "\x1b[0;31m", green: "\x1b[0;32m", reset: "\x1b[0m" }
        } else {
            Palette { red: "", green: "", reset: "" }
        }
    }
}

/// The line for one pattern of a cover.
pub open spec fn entry_line(e: (Seq<char>, Seq<Seq<char>>)) -> Seq<char> {
    "  "@ + e.0 + "  ("@ + decimal(e.1.len()) + " selectors)"@
}

/// The lines for a class of selectors: none where it is empty, else a heading,
/// the patterns that cover it, and an empty line.
pub open spec fn section(
    palette: Palette,
    heading: Seq<char>,
    selectors: Seq<Seq<char>>,
    passed: Seq<Seq<char>>,
) -> Seq<Seq<char>> {
    if selectors.len() == 0 {
        Seq::empty()
    } else {
        (seq![palette.red@ + heading + ":"@ + palette.reset@] + cover(
            selectors,
            passed,
            selectors,
        ).map_values(|e: (Seq<char>, Seq<Seq<char>>)| entry_line(e))).push(""@)
    }
}

/// The line for the number of selectors in a class, where it is not empty.
pub open spec fn count_line(label: Seq<char>, count: nat) -> Seq<Seq<char>> {
    if count == 0 {
        Seq::empty()
    } else {
        seq![label + decimal(count)]
    }
}

/// The closing lines.
pub open spec fn summary(
    palette: Palette,
    total: nat,
    passed: nat,
    unmatched: nat,
    duplicated: nat,
) -> Seq<Seq<char>> {
    (seq![
        "========================================"@,
        "Summary:"@,
        "  Total selectors:  "@ + decimal(total),
        "  "@ + palette.green@ + "Passed:"@ + palette.reset@ + "           "@ + decimal(passed),
        "  "@ + palette.red@ + "Failed:"@ + palette.reset@ + "           "@ + decimal(
            unmatched + duplicated,
        ),
    ] + count_line("    Unmatched:      "@, unmatched) + count_line(
        "    Duplicated:     "@,
        duplicated,
    )).push("========================================"@)
}

/// All lines of the report.
pub open spec fn report_lines(
    palette: Palette,
    total: nat,
    passed: Seq<Seq<char>>,
    unmatched: Seq<Seq<char>>,
    duplicated: Seq<Seq<char>>,
) -> Seq<Seq<char>> {
    section(palette, "Unmatched selectors (not found in any lst file)"@, unmatched, passed)
        + section(
        palette,
        "Duplicated selectors (found in multiple lst files)"@,
        duplicated,
        passed,
    ) + summary(palette, total, passed.len(), unmatched.len(), duplicated.len())
}

/// Adds a line at the end.
fn add_line(lines: &mut Vec<String>, line: String)
    ensures
        texts(final(lines)@) == texts(old(lines)@).push(line@),
{
    let ghost before = texts(lines@);
    lines.push(line);
    assert(texts(lines@) == before.push(line@));
}

/// Adds the lines for a class of selectors.
fn add_section(
    palette: &Palette,
    heading: &str,
    selectors: &StringSet,
    passed: &StringSet,
    lines: &mut Vec<String>,
)
    ensures
        texts(final(lines)@) == texts(old(lines)@) + section(
            *palette,
            heading@,
            selectors@,
            passed@,
        ),
{
    let ghost before = texts(lines@);
    if selectors.is_empty() {
        assert(before + Seq::<Seq<char>>::empty() == before);
        return;
    }
    let title = palette.red.to_owned().concat(heading).concat(":").concat(palette.reset);
    let ghost first = title@;
    add_line(lines, title);
    let wildcards = find_minimal_wildcards(selectors, passed);
    let ghost all = entries(wildcards@);
    let ghost line = |e: (Seq<char>, Seq<Seq<char>>)| entry_line(e);
    let mut i: usize = 0;
    assert(all.take(0).map_values(line) == Seq::<Seq<char>>::empty());
    assert(before.push(first) + Seq::<Seq<char>>::empty() == before.push(first));
    while i < wildcards.len()
        invariant
            all == entries(wildcards@),
            line == (|e: (Seq<char>, Seq<Seq<char>>)| entry_line(e)),
            i <= wildcards@.len(),
            texts(lines@) == before.push(first) + all.take(i as int).map_values(line),
        decreases wildcards@.len() - i,
    {
        let text = "  ".to_owned().concat(&wildcards[i].0).concat("  (").concat(
            &to_decimal(wildcards[i].1.len()),
        ).concat(" selectors)");
        proof {
            let e = all[i as int];
            assert(e.1.len() == wildcards@[i as int].1@.len());
            assert(text@ == entry_line(e));
            assert(all.take(i + 1).map_values(line) == all.take(i as int).map_values(line).push(
                text@,
            ));
        }
        add_line(lines, text);
        i = i + 1;
    }
    add_line(lines, "".to_owned());
    proof {
        assert(all.take(i as int) == all);
        let body = all.map_values(line);
        assert((before.push(first) + body).push(""@) == before + (seq![first] + body).push(""@));
    }
}

/// What is reported of a list of selectors.
pub struct Report {
    /// Where each selector belongs.
    pub classes: Classes,
    /// The lines to print.
    pub lines: Vec<String>,
    /// Why the check fails, if it does.
    pub failure: Option<String>,
}

/// Classify every selector, then write the report. Fails if any selector is
/// unmatched or duplicated.
pub fn report(all_selectors: &[String], patterns: &[Pattern], palette: &Palette) -> (report: Report)
    ensures
        ascending(report.classes.passed@),
        ascending(report.classes.unmatched@),
        ascending(report.classes.duplicated@),
        forall|s: Seq<char>| #[trigger]
            report.classes.passed@.contains(s) <==> texts(all_selectors@).contains(s) && passes(
                all_models(patterns@),
                s,
            ),
        forall|s: Seq<char>| #[trigger]
            report.classes.unmatched@.contains(s) <==> texts(all_selectors@).contains(s)
                && is_unmatched(all_models(patterns@), s),
        forall|s: Seq<char>| #[trigger]
            report.classes.duplicated@.contains(s) <==> texts(all_selectors@).contains(s)
                && is_duplicated(all_models(patterns@), s),
        texts(report.lines@) == report_lines(
            *palette,
            all_selectors@.len(),
            report.classes.passed@,
            report.classes.unmatched@,
            report.classes.duplicated@,
        ),
        match report.failure {
            None => report.classes.unmatched@.len() + report.classes.duplicated@.len() == 0,
            Some(message) => {
                &&& report.classes.unmatched@.len() + report.classes.duplicated@.len() > 0
                &&& message@ == decimal(
                    report.classes.unmatched@.len() + report.classes.duplicated@.len(),
                ) + " CTS selector(s) are unmatched or duplicated"@
            },
        },
        report.failure is None <==> forall|s: Seq<char>| #[trigger]
            texts(all_selectors@).contains(s) ==> passes(all_models(patterns@), s),
{
    let classes = classify(all_selectors, patterns);
    let mut lines: Vec<String> = Vec::new();
    assert(texts(lines@) == Seq::<Seq<char>>::empty());
    add_section(
        palette,
        "Unmatched selectors (not found in any lst file)",
        &classes.unmatched,
        &classes.passed,
        &mut lines,
    );
    add_section(
        palette,
        "Duplicated selectors (found in multiple lst files)",
        &classes.duplicated,
        &classes.passed,
        &mut lines,
    );
    assert(all_selectors.len() == all_selectors@.len());
    let failed = classes.unmatched.len() + classes.duplicated.len();
    add_summary(palette, all_selectors.len(), &classes, &mut lines);
    let failure = if failed > 0 {
        Some(to_decimal(failed).concat(" CTS selector(s) are unmatched or duplicated"))
    } else {
        None
    };
    proof {
        let rules = all_models(patterns@);
        let all = texts(all_selectors@);
        let unmatched = classes.unmatched@;
        let duplicated = classes.duplicated@;
        if failed == 0 {
            assert forall|s: Seq<char>| #[trigger] all.contains(s) implies passes(rules, s) by {
                assert(!unmatched.contains(s) && !duplicated.contains(s));
            }
        } else if unmatched.len() > 0 {
            assert(unmatched.contains(unmatched[0]));
        } else {
            assert(duplicated.contains(duplicated[0]));
        }
    }
    Report { classes, lines, failure }
}

/// Adds the line for the number of selectors in a class.
fn add_count(label: &str, count: usize, lines: &mut Vec<String>)
    ensures
        texts(final(lines)@) == texts(old(lines)@) + count_line(label@, count as nat),
{
    let ghost before = texts(lines@);
    if count > 0 {
        add_line(lines, label.to_owned().concat(&to_decimal(count)));
    }
    assert(texts(lines@) == before + count_line(label@, count as nat));
}

/// Adds the closing lines.
fn add_summary(palette: &Palette, total: usize, classes: &Classes, lines: &mut Vec<String>)
    requires
        classes.unmatched@.len() + classes.duplicated@.len() <= usize::MAX,
    ensures
        texts(final(lines)@) == texts(old(lines)@) + summary(
            *palette,
            total as nat,
            classes.passed@.len(),
            classes.unmatched@.len(),
            classes.duplicated@.len(),
        ),
{
    let ghost before = texts(lines@);
    let rule = "========================================";
    let unmatched = classes.unmatched.len();
    let duplicated = classes.duplicated.len();
    add_line(lines, rule.to_owned());
    add_line(lines, "Summary:".to_owned());
    add_line(lines, "  Total selectors:  ".to_owned().concat(&to_decimal(total)));
    add_line(
        lines,
        "  ".to_owned().concat(palette.green).concat("Passed:").concat(palette.reset).concat(
            "           ",
        ).concat(&to_decimal(classes.passed.len())),
    );
    add_line(
        lines,
        "  ".to_owned().concat(palette.red).concat("Failed:").concat(palette.reset).concat(
            "           ",
        ).concat(&to_decimal(unmatched + duplicated)),
    );
    let ghost head = seq![
        rule@,
        "Summary:"@,
        "  Total selectors:  "@ + decimal(total as nat),
        "  "@ + palette.green@ + "Passed:"@ + palette.reset@ + "           "@ + decimal(
            classes.passed@.len(),
        ),
        "  "@ + palette.red@ + "Failed:"@ + palette.reset@ + "           "@ + decimal(
            (unmatched + duplicated) as nat,
        ),
    ];
    assert(texts(lines@) == before + head);
    add_count("    Unmatched:      ", unmatched, lines);
    add_count("    Duplicated:     ", duplicated, lines);
    add_line(lines, rule.to_owned());
    proof {
        let u = count_line("    Unmatched:      "@, unmatched as nat);
        let d = count_line("    Duplicated:     "@, duplicated as nat);
        assert((before + head + u + d).push(rule@) == before + (head + u + d).push(rule@));
    }
}

} // verus!
