use cts::list::{
    gather, listed_selectors, load_patterns, parse_lst, parse_lst_line, selectors_to_verify, ListError,
};
use cts::pattern::LstFile;

fn parsed(line: &str) -> Option<(String, Vec<String>)> {
    parse_lst_line(line).map(|line| (line.selector, line.fails_if))
}

fn strings(list: &[&str]) -> Vec<String> {
    list.iter().map(|s| s.to_string()).collect()
}

#[test]
fn comments_and_empty_lines_say_nothing() {
    assert_eq!(parsed(""), None);
    assert_eq!(parsed(" \t\r"), None);
    assert_eq!(parsed("// webgpu:a"), None);
    assert_eq!(parsed("# webgpu:a"), None);
    assert_eq!(parsed("  #"), None);
    assert_eq!(parsed("/"), Some(("/".to_string(), vec![])));
}

#[test]
fn a_line_is_a_selector() {
    assert_eq!(
        parsed("  webgpu:a,b:* \u{3000}"),
        Some(("webgpu:a,b:*".to_string(), vec![]))
    );
}

#[test]
fn a_clause_names_backends() {
    assert_eq!(
        parsed("fails-if(dx12) webgpu:a,*"),
        Some(("webgpu:a,*".to_string(), strings(&["dx12"])))
    );
    assert_eq!(
        parsed("fails-if( dx12, metal ,) \t webgpu:a(b)"),
        Some(("webgpu:a(b)".to_string(), strings(&["dx12", "metal"])))
    );
}

#[test]
fn an_unfinished_clause_is_part_of_the_selector() {
    for line in ["fails-if(dx12", "fails-if(dx12)", "fails-if(dx12)webgpu:a"] {
        assert_eq!(parsed(line), Some((line.to_string(), vec![])));
    }
}

#[test]
fn files_are_read_line_by_line() {
    let lines = parse_lst("// all\r\nwebgpu:a:*\r\n\r\nfails-if(gl) webgpu:b:*");
    let lines: Vec<_> = lines
        .into_iter()
        .map(|line| (line.selector, line.fails_if))
        .collect();
    assert_eq!(
        lines,
        vec![
            ("webgpu:a:*".to_string(), vec![]),
            ("webgpu:b:*".to_string(), strings(&["gl"])),
        ]
    );
    assert!(parse_lst("").is_empty());
}

#[test]
fn ignored_lines_change_nothing() {
    let with = parse_lst("webgpu:a\n# note\nwebgpu:b\n");
    let without = parse_lst("webgpu:a\nwebgpu:b\n");
    assert_eq!(with.len(), 2);
    for (a, b) in with.iter().zip(&without) {
        assert_eq!(a.selector, b.selector);
        assert_eq!(a.fails_if, b.fails_if);
    }
}

#[test]
fn tests_are_gathered_with_the_leading_one_in_front() {
    let gathered = |leading: Option<&str>, named: &[&str], files: &[&str]| {
        gather(leading.map(String::from), strings(named), strings(files))
            .into_iter()
            .map(|line| (line.selector, line.fails_if))
            .collect::<Vec<_>>()
    };
    let plain = |selector: &str| (selector.to_string(), vec![]);
    assert_eq!(
        gathered(
            Some("webgpu:z"),
            &["# named", "webgpu:a"],
            &["webgpu:c\n# note\nfails-if(gl) webgpu:b", "", "webgpu:c"],
        ),
        vec![
            plain("webgpu:z"),
            plain("# named"),
            plain("webgpu:a"),
            plain("webgpu:c"),
            ("webgpu:b".to_string(), strings(&["gl"])),
            plain("webgpu:c"),
        ]
    );
    assert_eq!(gathered(None, &["webgpu:a"], &[]), vec![plain("webgpu:a")]);
    assert!(gathered(None, &[], &[]).is_empty());
}

#[test]
fn patterns_come_from_all_lists_in_order() {
    let Ok(patterns) = load_patterns(
        Some("webgpu:a,*\nfails-if(vulkan) webgpu:b,*\n"),
        None,
        Some("webgpu:c,*"),
    ) else {
        panic!("test.lst was there");
    };
    let seen: Vec<_> = patterns
        .iter()
        .map(|p| (p.segments().join("*"), p.source(), p.has_fails_if()))
        .collect();
    assert_eq!(
        seen,
        vec![
            ("webgpu:a,*".to_string(), LstFile::Test, false),
            ("webgpu:b,*".to_string(), LstFile::Test, true),
            ("webgpu:c,*".to_string(), LstFile::Skip, false),
        ]
    );
}

#[test]
fn the_test_list_must_exist() {
    match load_patterns(None, Some("webgpu:a"), None) {
        Ok(_) => panic!("there is no test.lst"),
        Err(error) => {
            assert_eq!(error, ListError::NotFound(LstFile::Test));
            assert_eq!(error.message(), "`cts_runner/test.lst` not found");
        }
    }
}

#[test]
fn lists_have_their_places() {
    let paths: Vec<_> = LstFile::ALL.iter().map(|file| file.path()).collect();
    assert_eq!(
        paths,
        vec![
            "cts_runner/test.lst",
            "cts_runner/fail.lst",
            "cts_runner/skip.lst"
        ]
    );
}

#[test]
fn selectors_are_listed_one_to_a_line() {
    assert_eq!(
        listed_selectors("webgpu:a:*\r\n\n  webgpu:b:*  \n   \n"),
        strings(&["webgpu:a:*", "  webgpu:b:*"])
    );
    assert!(listed_selectors("").is_empty());
}

#[test]
fn validation_is_verified_by_default() {
    assert_eq!(
        selectors_to_verify(vec![]),
        strings(&["webgpu:api,validation,*", "webgpu:shader,validation,*"])
    );
    assert_eq!(
        selectors_to_verify(strings(&["webgpu:idl,*"])),
        strings(&["webgpu:idl,*"])
    );
}
