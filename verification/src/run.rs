//! What a run of the CTS does with its options, its test lists, and what the
//! CTS reports.

use crate::index::{lemma_lists_same, lists};
use crate::pattern::LstLine;
use crate::search::{compile, is_match, regex_error_of, regex_finds, regex_of};
use crate::text::{
    after_first, behind_first, chars_of, decimal, holds, lower, lowers_to, opt_text, same, texts,
    to_decimal, trim, trimmed,
};
use vstd::prelude::*;

verus! {

/// What `cts` is asked to do.
#[derive(Clone, Copy, PartialEq, Eq, Debug, Structural)]
pub enum Subcommand {
    Run,
    VerifySelectors,
}

/// What the first word of the command line asks for, and the word itself where
/// it is not a known sub-subcommand.
///
/// `run` is the default sub-subcommand, so a leading positional that isn't a
/// known sub-subcommand is a test selector, to be carried forward.
pub fn choose_subcommand(word: Option<String>) -> (chosen: (Subcommand, Option<String>))
    ensures
        match word {
            None => chosen == (Subcommand::Run, None::<String>),
            Some(text) => if text@ == "run"@ {
                chosen == (Subcommand::Run, None::<String>)
            } else if text@ == "verify-selectors"@ {
                chosen == (Subcommand::VerifySelectors, None::<String>)
            } else {
                chosen == (Subcommand::Run, word)
            },
        },
{
    match word {
        None => (Subcommand::Run, None),
        Some(text) => if same(&text, "run") {
            (Subcommand::Run, None)
        } else if same(&text, "verify-selectors") {
            (Subcommand::VerifySelectors, None)
        } else {
            (Subcommand::Run, Some(text))
        },
    }
}

/// When the output of a test is printed in full.
#[derive(Clone, Copy, PartialEq, Eq, Debug, Structural)]
pub enum PrintOutputWhen {
    TestFails,
    Always,
}

impl PrintOutputWhen {
    /// How the option's value is written.
    pub open spec fn name(self) -> Seq<char> {
        match self {
            PrintOutputWhen::TestFails => "test-fails"@,
            PrintOutputWhen::Always => "always"@,
        }
    }

    /// Reads the value of `--print-output-when`, whatever the case of its
    /// letters; the error is what to tell the user.
    pub fn parse(value: &str) -> (parsed: Result<Self, String>)
        ensures
            match parsed {
                Ok(when) => value@.map_values(|c: char| lower(c)) == when.name(),
                Err(message) => {
                    &&& value@.map_values(|c: char| lower(c)) != PrintOutputWhen::TestFails.name()
                    &&& value@.map_values(|c: char| lower(c)) != PrintOutputWhen::Always.name()
                    &&& message@ == "`"@ + value@
                        + "` is not a valid `--print-output-when` value; expected one of [\"test-fails\", \"always\"]"@
                },
            },
    {
        if lowers_to(value, "test-fails") {
            Ok(PrintOutputWhen::TestFails)
        } else if lowers_to(value, "always") {
            Ok(PrintOutputWhen::Always)
        } else {
            Err(
                "`".to_owned().concat(value).concat(
                    "` is not a valid `--print-output-when` value; expected one of [\"test-fails\", \"always\"]",
                ),
            )
        }
    }
}

/// Whether external textures are enabled: where that is asked for, or, unless
/// it is ruled out, on the backends that support them.
pub fn enable_external_texture(enable: bool, disable: bool, backend: Option<&str>) -> (yes: bool)
    ensures
        yes == (enable || (!disable && (opt_text(backend) == Some("metal"@) || opt_text(backend) == Some(
            "dx12"@,
        )))),
{
    enable || (!disable && match backend {
        Some(backend) => same(backend, "metal") || same(backend, "dx12"),
        None => false,
    })
}

/// Whether the DX12 backend may be used: it is asked for, or none is.
pub fn may_use_dx12(backend: Option<&str>) -> (yes: bool)
    ensures
        yes == (backend is None || opt_text(backend) == Some("dx12"@)),
{
    match backend {
        Some(backend) => same(backend, "dx12"),
        None => true,
    }
}

/// Whether to warn that no backend was given: `fails-if` conditions and external
/// texture support are handled correctly only when one is, which matters unless
/// all the tests were named on the command line.
pub fn warns_about_backend(has_backend: bool, tests: usize, list_files: usize) -> (yes: bool)
    ensures
        yes == (!has_backend && (list_files > 0 || tests == 0)),
{
    !has_backend && (list_files > 0 || tests == 0)
}

/// What is run and what is printed.
#[derive(Clone, Copy, PartialEq, Eq, Debug, Structural)]
pub struct Plan {
    /// Whether the tests come from the default list.
    pub default_list: bool,
    pub output: PrintOutputWhen,
}

/// Tests or test lists were given together with passthrough arguments.
#[derive(Clone, Copy, PartialEq, Eq, Debug, Structural)]
pub struct Incompatible;

impl Incompatible {
    /// What to tell the user.
    pub fn message(&self) -> (message: String)
        ensures
            message@
                == "Test(s) and test list(s) are incompatible with passthrough arguments."@,
    {
        "Test(s) and test list(s) are incompatible with passthrough arguments.".to_owned()
    }
}

/// Settles what to run: without tests, test lists or passthrough arguments the
/// default list, of which only the failures are printed in full unless asked
/// otherwise.
pub fn plan(
    tests: usize,
    list_files: usize,
    passthrough: bool,
    output: Option<PrintOutputWhen>,
) -> (planned: Result<Plan, Incompatible>)
    ensures
        planned is Err <==> passthrough && (tests > 0 || list_files > 0),
        planned matches Ok(plan) ==> {
            &&& plan.default_list == (tests == 0 && list_files == 0 && !passthrough)
            &&& plan.output == match output {
                Some(output) => output,
                None => if plan.default_list {
                    PrintOutputWhen::TestFails
                } else {
                    PrintOutputWhen::Always
                },
            }
        },
{
    let named = tests > 0 || list_files > 0;
    if named && passthrough {
        return Err(Incompatible);
    }
    let default_list = !named && !passthrough;
    let default_output = if default_list {
        PrintOutputWhen::TestFails
    } else {
        PrintOutputWhen::Always
    };
    let output = match output {
        Some(output) => output,
        None => default_output,
    };
    Ok(Plan { default_list, output })
}

/// What a [`Filter`] selects by: the tests in whose selectors `regex` is found,
/// or, inverted, the others.
pub struct FilterModel {
    pub regex: regex_lite::Regex,
    pub invert: bool,
}

/// Selects tests by their selectors.
pub struct Filter {
    regex: regex_lite::Regex,
    invert: bool,
}

impl View for Filter {
    type V = FilterModel;

    closed spec fn view(&self) -> FilterModel {
        FilterModel { regex: self.regex, invert: self.invert }
    }
}

/// The regular expression of a filter does not compile.
pub struct FilterError {
    pub pattern: String,
    pub cause: regex_lite::Error,
}

impl FilterError {
    /// What to tell the user, besides the cause.
    pub fn message(&self) -> (message: String)
        ensures
            message@ == "Invalid regex pattern '"@ + self.pattern@ + "' for --filter"@,
    {
        "Invalid regex pattern '".to_owned().concat(&self.pattern).concat("' for --filter")
    }
}

/// Whether the value of `--filter` asks for what does not match.
pub open spec fn inverts(value: Seq<char>) -> bool {
    value.len() > 0 && value[0] == '!'
}

/// The regular expression in the value of `--filter`.
pub open spec fn filter_pattern(value: Seq<char>) -> Seq<char> {
    if inverts(value) {
        value.drop_first()
    } else {
        value
    }
}

/// A leading `!` asks for what does not match the rest; without one, the value is
/// the regular expression.
pub proof fn law_leading_mark_inverts(pattern: Seq<char>)
    ensures
        inverts(seq!['!'] + pattern),
        filter_pattern(seq!['!'] + pattern) == pattern,
        pattern.len() == 0 || pattern[0] != '!' ==> !inverts(pattern) && filter_pattern(pattern)
            == pattern,
{
    assert((seq!['!'] + pattern).drop_first() == pattern);
}

/// Parts the value of `--filter` into the regular expression and whether it is
/// inverted, which a leading `!` says.
pub fn split_filter(value: &str) -> (parts: (&str, bool))
    ensures
        parts.0@ == filter_pattern(value@),
        parts.1 == inverts(value@),
{
    let text = chars_of(value);
    if text.len() > 0 && text[0] == '!' {
        let rest = value.substring_char(1, text.len());
        assert(rest@ == value@.drop_first());
        (rest, true)
    } else {
        (value, false)
    }
}

impl Filter {
    /// The filter that the value of `--filter` asks for, given what came of
    /// compiling its regular expression.
    pub fn from_compiled(
        value: &str,
        compiled: Result<regex_lite::Regex, regex_lite::Error>,
    ) -> (filter: Result<Self, FilterError>)
        ensures
            match compiled {
                Ok(regex) => filter matches Ok(filter) && filter@ == (FilterModel {
                    regex,
                    invert: inverts(value@),
                }),
                Err(cause) => filter matches Err(error) && error.cause == cause && error.pattern@
                    == filter_pattern(value@),
            },
    {
        let (pattern, invert) = split_filter(value);
        match compiled {
            Ok(regex) => Ok(Filter { regex, invert }),
            Err(cause) => Err(FilterError { pattern: pattern.to_owned(), cause }),
        }
    }

    /// Compiles the value of `--filter`. Whether its regular expression compiles
    /// is for `regex_lite` to say.
    pub fn new(value: &str) -> (filter: Result<Self, FilterError>)
        ensures
            match filter {
                Ok(filter) => filter@ == (FilterModel {
                    regex: regex_of(filter_pattern(value@)),
                    invert: inverts(value@),
                }),
                Err(error) => {
                    &&& error.pattern@ == filter_pattern(value@)
                    &&& error.cause == regex_error_of(filter_pattern(value@))
                },
            },
    {
        let (pattern, _) = split_filter(value);
        Filter::from_compiled(value, compile(pattern))
    }

    /// Which of the tests the filter selects, by their indices.
    pub fn select(&self, tests: &[LstLine]) -> (selected: Vec<usize>)
        ensures
            lists(selected@, tests@.len() as int, selects(self@, tests@)),
            forall|i: int|
                0 <= i < tests@.len() ==> (selected@.contains(i as usize) <==> (regex_finds(
                    self@.regex,
                    (#[trigger] tests@[i]).selector@,
                ) != self@.invert)),
            forall|a: int, b: int| 0 <= a < b < selected@.len() ==> selected@[a] < selected@[b],
            forall|a: int| 0 <= a < selected@.len() ==> (#[trigger] selected@[a]) < tests@.len(),
    {
        let mut found: Vec<bool> = Vec::new();
        let mut i: usize = 0;
        while i < tests.len()
            invariant
                i <= tests@.len(),
                found@.len() == i,
                forall|j: int|
                    0 <= j < i ==> (#[trigger] found@[j]) == regex_finds(
                        self@.regex,
                        tests@[j].selector@,
                    ),
            decreases tests@.len() - i,
        {
            found.push(is_match(&self.regex, &tests[i].selector));
            i = i + 1;
        }
        let selected = select_found(&found, self.invert);
        proof {
            assert(tests.len() == tests@.len());
            let f = selects_found(found@, self@.invert);
            let g = selects(self@, tests@);
            assert forall|i: int| 0 <= i < tests@.len() implies #[trigger] g(i) == f(i) by {
                assert(found@[i] == regex_finds(self@.regex, tests@[i].selector@));
            }
            lemma_lists_same(selected@, tests@.len() as int, f, g);
            assert forall|i: int| 0 <= i < tests@.len() implies (selected@.contains(i as usize) <==> (
            regex_finds(self@.regex, (#[trigger] tests@[i]).selector@) != self@.invert)) by {
                law_selected_by_selector(self@, tests@, selected@, i);
            }
        }
        selected
    }
}

/// The tests that a filter selects.
pub open spec fn selects(filter: FilterModel, tests: Seq<LstLine>) -> spec_fn(int) -> bool {
    |i: int| regex_finds(filter.regex, tests[i].selector@) != filter.invert
}

/// What a filter selects is decided by the selectors: a test is among the selected
/// where the regular expression is found in its selector and the filter is not
/// inverted, or is not found there and the filter is, and nowhere else.
pub proof fn law_selected_by_selector(
    filter: FilterModel,
    tests: Seq<LstLine>,
    selected: Seq<usize>,
    i: int,
)
    requires
        tests.len() <= usize::MAX,
        lists(selected, tests.len() as int, selects(filter, tests)),
        0 <= i < tests.len(),
    ensures
        regex_finds(filter.regex, tests[i].selector@) && !filter.invert ==> selected.contains(
            i as usize,
        ),
        regex_finds(filter.regex, tests[i].selector@) && filter.invert ==> !selected.contains(
            i as usize,
        ),
        !regex_finds(filter.regex, tests[i].selector@) && filter.invert ==> selected.contains(
            i as usize,
        ),
        !regex_finds(filter.regex, tests[i].selector@) && !filter.invert ==> !selected.contains(
            i as usize,
        ),
{
    let f = selects(filter, tests);
    if f(i) {
        assert(selected.contains(i as usize));
    }
    if selected.contains(i as usize) {
        let a = choose|a: int| 0 <= a < selected.len() && selected[a] == i as usize;
        assert(f(selected[a] as int));
    }
}

/// Two tests with the same selector are both selected or both left out, whatever
/// else their lines say and wherever they stand.
pub proof fn law_selector_alone_decides(
    filter: FilterModel,
    tests: Seq<LstLine>,
    selected: Seq<usize>,
    i: int,
    others: Seq<LstLine>,
    chosen: Seq<usize>,
    j: int,
)
    requires
        tests.len() <= usize::MAX,
        others.len() <= usize::MAX,
        lists(selected, tests.len() as int, selects(filter, tests)),
        lists(chosen, others.len() as int, selects(filter, others)),
        0 <= i < tests.len(),
        0 <= j < others.len(),
        tests[i].selector@ == others[j].selector@,
    ensures
        selected.contains(i as usize) == chosen.contains(j as usize),
{
    law_selected_by_selector(filter, tests, selected, i);
    law_selected_by_selector(filter, others, chosen, j);
}

/// What is selected is selected once, in the order of the tests.
pub proof fn law_selected_in_order(
    filter: FilterModel,
    tests: Seq<LstLine>,
    selected: Seq<usize>,
    a: int,
    b: int,
)
    requires
        lists(selected, tests.len() as int, selects(filter, tests)),
        0 <= a < b < selected.len(),
    ensures
        selected[a] < selected[b] < tests.len(),
{
}

/// A test is selected by a filter or by the same filter inverted, and not by both.
pub proof fn law_inverted_filter_selects_the_rest(
    regex: regex_lite::Regex,
    tests: Seq<LstLine>,
    i: int,
)
    ensures
        selects(FilterModel { regex, invert: true }, tests)(i) != selects(
            FilterModel { regex, invert: false },
            tests,
        )(i),
{
}

/// The tests that are selected where the regular expression was found in those
/// that `found` flags.
pub open spec fn selects_found(found: Seq<bool>, invert: bool) -> spec_fn(int) -> bool {
    |i: int| found[i] != invert
}

/// The indices of the tests that are selected, given in which the regular
/// expression was found.
pub fn select_found(found: &[bool], invert: bool) -> (selected: Vec<usize>)
    ensures
        lists(selected@, found@.len() as int, selects_found(found@, invert)),
        forall|i: int|
            0 <= i < found@.len() ==> (selected@.contains(i as usize) <==> (#[trigger] found@[i])
                != invert),
        forall|a: int, b: int| 0 <= a < b < selected@.len() ==> selected@[a] < selected@[b],
        forall|a: int| 0 <= a < selected@.len() ==> (#[trigger] selected@[a]) < found@.len(),
{
    let ghost f = selects_found(found@, invert);
    let mut selected: Vec<usize> = Vec::new();
    let mut i: usize = 0;
    while i < found.len()
        invariant
            f == selects_found(found@, invert),
            i <= found@.len(),
            lists(selected@, i as int, f),
        decreases found@.len() - i,
    {
        let ghost before = selected@;
        if found[i] != invert {
            selected.push(i);
            proof {
                assert forall|k: int| 0 <= k < i + 1 && #[trigger] f(k) implies selected@.contains(
                    k as usize,
                ) by {
                    if k < i {
                        let a = choose|a: int| 0 <= a < before.len() && before[a] == k as usize;
                        assert(selected@[a] == k as usize);
                    } else {
                        assert(selected@[before.len() as int] == i);
                    }
                }
            }
        }
        i = i + 1;
    }
    proof {
        assert(found.len() == found@.len());
        assert forall|i: int| 0 <= i < found@.len() implies (selected@.contains(i as usize) <==> (
        #[trigger] found@[i]) != invert) by {
            if found@[i] != invert {
                assert(f(i));
            }
            if selected@.contains(i as usize) {
                let a = choose|a: int| 0 <= a < selected@.len() && selected@[a] == i as usize;
                assert(f(selected@[a] as int));
            }
        }
    }
    selected
}

/// What a filter did to the tests.
#[derive(Clone, Copy, PartialEq, Eq, Debug, Structural)]
pub enum FilterOutcome {
    /// It let all of them pass, which is worth a warning.
    Unchanged,
    /// It selected some.
    Selected { selected: usize, original: usize },
    /// It selected none, which is an error.
    Nothing,
}

impl FilterOutcome {
    /// What to tell the user.
    pub open spec fn text(self) -> Seq<char> {
        match self {
            FilterOutcome::Unchanged => "Filter did not exclude any tests"@,
            FilterOutcome::Selected { selected, original } => "Filter selected "@ + decimal(
                selected as nat,
            ) + " of "@ + decimal(original as nat) + " test"@ + if original == 1 {
                ""@
            } else {
                "s"@
            },
            FilterOutcome::Nothing => "Filter did not select any tests"@,
        }
    }

    /// What to tell the user.
    pub fn message(&self) -> (message: String)
        ensures
            message@ == self.text(),
    {
        match *self {
            FilterOutcome::Unchanged => "Filter did not exclude any tests".to_owned(),
            FilterOutcome::Selected { selected, original } => {
                let plural = if original == 1 {
                    ""
                } else {
                    "s"
                };
                "Filter selected ".to_owned().concat(&to_decimal(selected)).concat(" of ").concat(
                    &to_decimal(original),
                ).concat(" test").concat(plural)
            },
            FilterOutcome::Nothing => "Filter did not select any tests".to_owned(),
        }
    }
}

/// What a filter's outcome is told as.
pub proof fn law_outcome_texts(selected: usize, original: usize)
    ensures
        FilterOutcome::Unchanged.text() == "Filter did not exclude any tests"@,
        FilterOutcome::Nothing.text() == "Filter did not select any tests"@,
        original == 1 ==> (FilterOutcome::Selected { selected, original }).text()
            == "Filter selected "@ + decimal(selected as nat) + " of "@ + decimal(1) + " test"@,
        original != 1 ==> (FilterOutcome::Selected { selected, original }).text()
            == "Filter selected "@ + decimal(selected as nat) + " of "@ + decimal(original as nat)
            + " tests"@,
{
    reveal_strlit("");
    reveal_strlit("s");
    reveal_strlit(" test");
    reveal_strlit(" tests");
    let head = "Filter selected "@ + decimal(selected as nat) + " of "@ + decimal(original as nat);
    assert(head + " test"@ + ""@ == head + " test"@);
    assert(head + " test"@ + "s"@ == head + " tests"@);
}

/// What came of a filter that selected `selected` of `original` tests.
pub fn filter_outcome(selected: usize, original: usize) -> (outcome: FilterOutcome)
    ensures
        outcome == if selected == original {
            FilterOutcome::Unchanged
        } else if selected == 0 {
            FilterOutcome::Nothing
        } else {
            FilterOutcome::Selected { selected, original }
        },
{
    if selected == original {
        FilterOutcome::Unchanged
    } else if selected == 0 {
        FilterOutcome::Nothing
    } else {
        FilterOutcome::Selected { selected, original }
    }
}

/// What to do next.
#[derive(Clone, Copy, PartialEq, Eq, Debug, Structural)]
pub enum Step {
    /// The test at this index fails on the backend in use: say so and go on.
    Skip(usize),
    /// Run the test at this index and keep what it prints.
    RunQuietly(usize),
    /// Announce the test at this index, and let it print.
    RunLoudly(usize),
    /// There is nothing left to run. Where there was more than one test, and none
    /// failed, the summary that the CTS printed last speaks of the last one only.
    Done { several: bool },
}

/// Where a [`Session`] stands.
pub struct SessionModel {
    /// For each test, the backends on which it fails.
    pub fails_if: Seq<Seq<Seq<char>>>,
    pub backend: Option<Seq<char>>,
    pub output: PrintOutputWhen,
    /// How many tests are behind it.
    pub next: nat,
}

/// Whether the line of the test at index `i` says that it fails on the backend
/// in use, which is known only if it was given.
pub open spec fn is_skipped(session: SessionModel, i: int) -> bool {
    session.backend matches Some(backend) && session.fails_if[i].contains(backend)
}

/// What a session does next.
pub open spec fn next_step(session: SessionModel) -> Step {
    if session.next >= session.fails_if.len() {
        Step::Done { several: session.fails_if.len() > 1 }
    } else if is_skipped(session, session.next as int) {
        Step::Skip(session.next as usize)
    } else {
        match session.output {
            PrintOutputWhen::TestFails => Step::RunQuietly(session.next as usize),
            PrintOutputWhen::Always => Step::RunLoudly(session.next as usize),
        }
    }
}

/// A run through a list of tests, from the first to the last.
pub struct Session {
    tests: Vec<LstLine>,
    backend: Option<String>,
    output: PrintOutputWhen,
    next: usize,
}

impl View for Session {
    type V = SessionModel;

    closed spec fn view(&self) -> SessionModel {
        SessionModel {
            fails_if: self.tests@.map_values(|test: LstLine| texts(test.fails_if@)),
            backend: match self.backend {
                Some(backend) => Some(backend@),
                None => None,
            },
            output: self.output,
            next: self.next as nat,
        }
    }
}

impl Session {
    /// Before the first test.
    pub fn new(tests: Vec<LstLine>, backend: Option<String>, output: PrintOutputWhen) -> (session:
        Self)
        ensures
            session@ == (SessionModel {
                fails_if: tests@.map_values(|test: LstLine| texts(test.fails_if@)),
                backend: match backend {
                    Some(backend) => Some(backend@),
                    None => None,
                },
                output,
                next: 0,
            }),
    {
        Session { tests, backend, output, next: 0 }
    }

    /// What to do next; the test that it speaks of is then behind the session.
    pub fn step(&mut self) -> (step: Step)
        ensures
            step == next_step(old(self)@),
            step is Done <==> old(self)@.next >= old(self)@.fails_if.len(),
            step is Skip <==> old(self)@.next < old(self)@.fails_if.len() && exists|k: int|
                0 <= k < old(self)@.fails_if[old(self)@.next as int].len() && old(self)@.backend
                    == Some(#[trigger] old(self)@.fails_if[old(self)@.next as int][k]),
            final(self)@ == (SessionModel {
                next: if step is Done {
                    old(self)@.next
                } else {
                    old(self)@.next + 1
                },
                ..old(self)@
            }),
    {
        let ghost fails_if = self@.fails_if;
        proof {
            law_skips_where_the_backend_is_named(self@);
        }
        let i = self.next;
        if i >= self.tests.len() {
            return Step::Done { several: self.tests.len() > 1 };
        }
        assert(fails_if[i as int] == texts(self.tests@[i as int].fails_if@));
        let skip = match &self.backend {
            Some(backend) => holds(&self.tests[i].fails_if, backend),
            None => false,
        };
        self.next = i + 1;
        if skip {
            return Step::Skip(i);
        }
        match self.output {
            PrintOutputWhen::TestFails => Step::RunQuietly(i),
            PrintOutputWhen::Always => Step::RunLoudly(i),
        }
    }

    /// Takes note that a test failed, which ends the run.
    pub fn fail(&mut self)
        ensures
            final(self)@ == stopped(old(self)@),
            next_step(final(self)@) is Done,
    {
        self.next = self.tests.len();
    }
}

/// Where a session stands once a test has failed: behind the last.
pub open spec fn stopped(session: SessionModel) -> SessionModel {
    SessionModel { next: session.fails_if.len(), ..session }
}

/// Nothing is run or skipped once a test has failed.
pub proof fn law_nothing_follows_a_failure(session: SessionModel, n: nat)
    ensures
        next_step(advanced(stopped(session), n)) is Done,
{
}

/// Where a session stands once `n` more tests are behind it.
pub open spec fn advanced(session: SessionModel, n: nat) -> SessionModel {
    SessionModel { next: session.next + n, ..session }
}

/// Every test is skipped or run once, in its place in the list, and the session
/// ends behind the last and not before.
pub proof fn law_every_test_has_its_step(session: SessionModel, i: nat)
    requires
        session.next == 0,
        session.fails_if.len() <= usize::MAX,
    ensures
        i < session.fails_if.len() ==> {
            let step = next_step(advanced(session, i));
            ||| step == Step::Skip(i as usize) && is_skipped(session, i as int)
            ||| step == Step::RunQuietly(i as usize) && !is_skipped(session, i as int)
            ||| step == Step::RunLoudly(i as usize) && !is_skipped(session, i as int)
        },
        next_step(advanced(session, i)) is Done <==> i >= session.fails_if.len(),
{
}

/// A test is skipped just where a backend was given and is one of those that its
/// line names.
pub proof fn law_skips_where_the_backend_is_named(session: SessionModel)
    ensures
        next_step(session) is Skip <==> session.next < session.fails_if.len() && exists|k: int|
            0 <= k < session.fails_if[session.next as int].len() && session.backend == Some(
                #[trigger] session.fails_if[session.next as int][k],
            ),
        next_step(session) is Done <==> session.next >= session.fails_if.len(),
{
    if session.next < session.fails_if.len() {
        let names = session.fails_if[session.next as int];
        if session.backend is Some && names.contains(session.backend->0) {
            let k = choose|k: int| 0 <= k < names.len() && names[k] == session.backend->0;
            assert(session.backend == Some(session.fails_if[session.next as int][k]));
        }
    }
}

/// A test whose line does not name the backend in use is run, and its output is
/// kept or printed as was asked.
pub proof fn law_other_backends_run(session: SessionModel, backend: Seq<char>)
    requires
        session.next < session.fails_if.len() <= usize::MAX,
        session.backend == Some(backend) || session.backend is None,
        session.backend is Some ==> forall|k: int|
            0 <= k < session.fails_if[session.next as int].len()
                ==> #[trigger] session.fails_if[session.next as int][k] != backend,
    ensures
        session.output == PrintOutputWhen::TestFails ==> next_step(session) == Step::RunQuietly(
            session.next as usize,
        ),
        session.output == PrintOutputWhen::Always ==> next_step(session) == Step::RunLoudly(
            session.next as usize,
        ),
{
    law_skips_where_the_backend_is_named(session);
}

/// What a session says at its end depends on whether there was more than one test.
pub proof fn law_end_tells_whether_several(session: SessionModel)
    requires
        session.next >= session.fails_if.len(),
    ensures
        next_step(session) == (Step::Done { several: session.fails_if.len() >= 2 }),
{
}

/// Without a backend no test is skipped.
pub proof fn law_no_backend_skips_nothing(session: SessionModel)
    requires
        session.backend is None,
    ensures
        !(next_step(session) is Skip),
{
}

/// What to print of a test that was run quietly.
pub enum Verdict {
    /// It succeeded: print its summary.
    Summary(String),
    /// It succeeded without a summary: print everything.
    Everything,
    /// It failed: print everything and stop.
    Failed,
}

/// What to print of a test that was run quietly, given whether it succeeded and
/// what it printed.
pub fn judge(success: bool, stdout: &str) -> (verdict: Verdict)
    ensures
        match verdict {
            Verdict::Failed => !success,
            Verdict::Everything => success && behind_first(stdout@, "** Summary **"@) is None,
            Verdict::Summary(text) => {
                &&& success
                &&& behind_first(stdout@, "** Summary **"@) matches Some(rest) && text@ == trimmed(
                    rest,
                )
            },
        },
{
    if !success {
        return Verdict::Failed;
    }
    match after_first(stdout, "** Summary **") {
        Some(rest) => Verdict::Summary(trim(rest).to_owned()),
        None => Verdict::Everything,
    }
}

} // verus!
