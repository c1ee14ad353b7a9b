use cts::pattern::LstLine;
use cts::run::{
    choose_subcommand, enable_external_texture, filter_outcome, judge, may_use_dx12, plan,
    select_found, split_filter, warns_about_backend, Filter, FilterOutcome, Incompatible, Plan,
    PrintOutputWhen, Session, Step, Subcommand, Verdict,
};
use cts::text::{is_white_space, lowers_to, to_decimal, trim, trim_end};

fn test(selector: &str, fails_if: &[&str]) -> LstLine {
    LstLine {
        selector: selector.to_string(),
        fails_if: fails_if.iter().map(|s| s.to_string()).collect(),
    }
}

fn word(word: &str) -> (Subcommand, Option<String>) {
    choose_subcommand(Some(word.to_string()))
}

#[test]
fn run_is_the_default_subcommand() {
    assert_eq!(choose_subcommand(None), (Subcommand::Run, None));
    assert_eq!(word("run"), (Subcommand::Run, None));
    assert_eq!(word("verify-selectors"), (Subcommand::VerifySelectors, None));
    assert_eq!(
        word("webgpu:a:*"),
        (Subcommand::Run, Some("webgpu:a:*".to_string()))
    );
    assert_eq!(word("Run"), (Subcommand::Run, Some("Run".to_string())));
}

#[test]
fn output_is_printed_when_asked() {
    assert_eq!(
        PrintOutputWhen::parse("test-fails"),
        Ok(PrintOutputWhen::TestFails)
    );
    assert_eq!(PrintOutputWhen::parse("ALWAYS"), Ok(PrintOutputWhen::Always));
    assert_eq!(
        PrintOutputWhen::parse("Never"),
        Err(
            "`Never` is not a valid `--print-output-when` value; expected one of [\"test-fails\", \"always\"]"
                .to_string()
        )
    );
}

#[test]
fn external_textures_depend_on_the_backend() {
    assert!(enable_external_texture(true, true, None));
    assert!(enable_external_texture(false, false, Some("metal")));
    assert!(enable_external_texture(false, false, Some("dx12")));
    assert!(!enable_external_texture(false, true, Some("dx12")));
    assert!(!enable_external_texture(false, false, Some("vulkan")));
    assert!(!enable_external_texture(false, false, None));
}

#[test]
fn dx12_may_be_used_unless_another_backend_is() {
    assert!(may_use_dx12(None) && may_use_dx12(Some("dx12")));
    assert!(!may_use_dx12(Some("metal")));
}

#[test]
fn a_missing_backend_is_worth_a_warning() {
    assert!(warns_about_backend(false, 0, 0));
    assert!(warns_about_backend(false, 2, 1));
    assert!(!warns_about_backend(false, 2, 0));
    assert!(!warns_about_backend(true, 0, 1));
}

#[test]
fn the_default_list_is_run_where_nothing_is_named() {
    let fails = PrintOutputWhen::TestFails;
    let always = PrintOutputWhen::Always;
    let planned = |default_list, output| {
        Ok(Plan {
            default_list,
            output,
        })
    };
    assert_eq!(plan(0, 0, false, None), planned(true, fails));
    assert_eq!(plan(0, 0, false, Some(always)), planned(true, always));
    assert_eq!(plan(0, 0, true, None), planned(false, always));
    assert_eq!(plan(1, 0, false, None), planned(false, always));
    assert_eq!(plan(0, 1, false, Some(fails)), planned(false, fails));
    assert_eq!(plan(1, 0, true, None), Err(Incompatible));
    assert_eq!(plan(0, 1, true, Some(fails)), Err(Incompatible));
}

#[test]
fn filters_select_by_regular_expression() {
    let tests = [
        test("webgpu:api,a:*", &[]),
        test("webgpu:shader,b:*", &[]),
        test("webgpu:api,c:*", &[]),
    ];
    let select = |value: &str| match Filter::new(value) {
        Ok(filter) => filter.select(&tests),
        Err(error) => panic!("{}", error.message()),
    };
    assert_eq!(select("api,[a-z]"), vec![0, 2]);
    assert_eq!(select("!api,[a-z]"), vec![1]);
    assert_eq!(select("^shader"), Vec::<usize>::new());
    assert_eq!(select(""), vec![0, 1, 2]);
}

#[test]
fn invalid_filters_are_refused() {
    match Filter::new("!foo(bar") {
        Ok(_) => panic!("the parenthesis is not closed"),
        Err(error) => {
            assert_eq!(error.pattern, "foo(bar");
            assert_eq!(
                error.message(),
                "Invalid regex pattern 'foo(bar' for --filter"
            );
            let cause = regex_lite::Regex::new("foo(bar").unwrap_err();
            assert_eq!(error.cause.to_string(), cause.to_string());
        }
    }
}

#[test]
fn filters_keep_what_was_compiled() {
    let tests = [test("ab", &[]), test("c", &[])];
    match Filter::from_compiled("!a", regex_lite::Regex::new("b")) {
        Ok(filter) => assert_eq!(filter.select(&tests), vec![1]),
        Err(_) => panic!("the expression compiled"),
    }
    let cause = regex_lite::Regex::new("(").unwrap_err();
    match Filter::from_compiled("!(", Err(cause.clone())) {
        Ok(_) => panic!("the expression did not compile"),
        Err(error) => {
            assert_eq!(error.pattern, "(");
            assert_eq!(error.cause.to_string(), cause.to_string());
        }
    }
}

#[test]
fn a_leading_exclamation_mark_inverts() {
    assert_eq!(split_filter("!a"), ("a", true));
    assert_eq!(split_filter("!!a"), ("!a", true));
    assert_eq!(split_filter("a!"), ("a!", false));
    assert_eq!(split_filter(""), ("", false));
    assert_eq!(select_found(&[true, false, true], false), vec![0, 2]);
    assert_eq!(select_found(&[true, false, true], true), vec![1]);
}

#[test]
fn filters_say_what_they_did() {
    assert_eq!(filter_outcome(2, 2), FilterOutcome::Unchanged);
    assert_eq!(filter_outcome(0, 0), FilterOutcome::Unchanged);
    assert_eq!(filter_outcome(0, 2), FilterOutcome::Nothing);
    let some = FilterOutcome::Selected {
        selected: 1,
        original: 12,
    };
    assert_eq!(filter_outcome(1, 12), some);
    assert_eq!(some.message(), "Filter selected 1 of 12 tests");
    assert_eq!(
        filter_outcome(2, 1).message(),
        "Filter selected 2 of 1 test"
    );
    assert_eq!(
        FilterOutcome::Unchanged.message(),
        "Filter did not exclude any tests"
    );
    assert_eq!(
        FilterOutcome::Nothing.message(),
        "Filter did not select any tests"
    );
}

#[test]
fn every_test_has_its_step() {
    let tests = vec![test("a", &["dx12"]), test("b", &[]), test("c", &["gl", "dx12"])];
    let mut session = Session::new(tests, Some("dx12".to_string()), PrintOutputWhen::Always);
    assert_eq!(session.step(), Step::Skip(0));
    assert_eq!(session.step(), Step::RunLoudly(1));
    assert_eq!(session.step(), Step::Skip(2));
    assert_eq!(session.step(), Step::Done { several: true });
    assert_eq!(session.step(), Step::Done { several: true });
}

#[test]
fn a_failure_ends_the_run() {
    let tests = vec![test("a", &[]), test("b", &["gl"]), test("c", &[])];
    let mut session = Session::new(tests, Some("gl".to_string()), PrintOutputWhen::TestFails);
    assert_eq!(session.step(), Step::RunQuietly(0));
    session.fail();
    assert_eq!(session.step(), Step::Done { several: true });
    assert_eq!(session.step(), Step::Done { several: true });
}

#[test]
fn incompatible_arguments_are_explained() {
    assert_eq!(
        Incompatible.message(),
        "Test(s) and test list(s) are incompatible with passthrough arguments."
    );
}

#[test]
fn without_a_backend_nothing_is_skipped() {
    let tests = vec![test("a", &["dx12"])];
    let mut session = Session::new(tests, None, PrintOutputWhen::TestFails);
    assert_eq!(session.step(), Step::RunQuietly(0));
    assert_eq!(session.step(), Step::Done { several: false });
}

#[test]
fn quiet_tests_are_judged_by_their_output() {
    match judge(true, "noise\n** Summary **\nPassed: 3 ** Summary **\n\n") {
        Verdict::Summary(text) => assert_eq!(text, "Passed: 3 ** Summary **"),
        _ => panic!("there is a summary"),
    }
    assert!(matches!(judge(true, "** Summary *"), Verdict::Everything));
    assert!(matches!(judge(false, "** Summary **"), Verdict::Failed));
}

#[test]
fn numbers_are_written_in_decimal() {
    for n in [0, 7, 10, 99, 100, 1234567890, usize::MAX] {
        assert_eq!(to_decimal(n), n.to_string());
    }
}

#[test]
fn white_space_is_what_unicode_says() {
    for c in (0..=0x10ffff).filter_map(char::from_u32) {
        assert_eq!(is_white_space(c), c.is_whitespace());
    }
    for text in ["", " ", " a b ", "\u{2003}x\r\n", "x", "\u{85}\u{200b}"] {
        assert_eq!(trim(text), text.trim());
        assert_eq!(trim_end(text), text.trim_end());
    }
}

#[test]
fn only_ascii_letters_are_lowered() {
    assert!(lowers_to("A-Zz[@", "a-zz[@"));
    assert!(!lowers_to("\u{c9}", "\u{e9}"));
    assert!(!lowers_to("a", "A"));
    assert!(!lowers_to("a", "ab"));
}
