//! Reading lists: the `.lst` files, and what the CTS lists of itself.
//!
//! Each line of a `.lst` file is a test selector. It may start with a
//! `fails-if(backend)` clause, which names the backends, separated by commas,
//! on which the test fails. Lines starting with `//` or `#` are comments and
//! ignored, as are empty ones.

use crate::accounting::all_models;
use crate::pattern::{LstFile, LstLine, Pattern, PatternModel, WILDCARD};
use crate::text::{
    chars_of, end_trimmed, is_space, is_white_space, lemma_pieces_cut, lemma_pieces_plain,
    opt_text, pieces, split, start_trimmed, starts_with, texts, trim, trim_end, trim_start, trimmed,
};
use vstd::prelude::*;

verus! {

/// What an [`LstLine`] says.
pub struct LineModel {
    pub selector: Seq<char>,
    pub fails_if: Seq<Seq<char>>,
}

impl View for LstLine {
    type V = LineModel;

    open spec fn view(&self) -> LineModel {
        LineModel { selector: self.selector@, fails_if: texts(self.fails_if@) }
    }
}

/// The backends that a clause names.
pub open spec fn backends(inner: Seq<char>) -> Seq<Seq<char>> {
    pieces(inner, ',').map_values(|s: Seq<char>| trimmed(s)).filter(|s: Seq<char>| s.len() > 0)
}

/// Whether `line` starts with a clause: `fails-if(`, what it names, `)`, and
/// white space.
pub open spec fn has_clause(line: Seq<char>) -> bool {
    &&& "fails-if("@.is_prefix_of(line)
    &&& line.index_of_first(')') matches Some(close) && close + 1 < line.len() && is_space(
        line[close + 1],
    )
}

/// What a line of a `.lst` file says, or `None` where it is empty or a comment.
pub open spec fn line_says(line: Seq<char>) -> Option<LineModel> {
    let text = trimmed(line);
    if text.len() == 0 || "//"@.is_prefix_of(text) || "#"@.is_prefix_of(text) {
        None
    } else if has_clause(text) {
        let close = text.index_of_first(')')->0;
        Some(
            LineModel {
                selector: start_trimmed(text.skip(close + 1)),
                fails_if: backends(text.subrange("fails-if("@.len() as int, close)),
            },
        )
    } else {
        Some(LineModel { selector: text, fails_if: Seq::empty() })
    }
}

/// What the lines of a `.lst` file say.
pub open spec fn file_says(contents: Seq<char>) -> Seq<LineModel> {
    pieces(contents, '\n').filter_map(|line: Seq<char>| line_says(line))
}

/// The pattern that a line of `source` makes.
pub open spec fn compiled(line: LineModel, source: LstFile) -> PatternModel {
    PatternModel {
        segments: pieces(line.selector, WILDCARD),
        source,
        has_fails_if: line.fails_if.len() > 0,
    }
}

/// The patterns of a `.lst` file, none where there is no such file.
pub open spec fn file_patterns(contents: Option<Seq<char>>, source: LstFile) -> Seq<PatternModel> {
    match contents {
        Some(contents) => file_says(contents).map_values(|line: LineModel| compiled(line, source)),
        None => Seq::empty(),
    }
}

/// What two lists of lines say together.
proof fn lemma_says_concat(a: Seq<Seq<char>>, b: Seq<Seq<char>>)
    ensures
        (a + b).filter_map(|line: Seq<char>| line_says(line)) == a.filter_map(
            |line: Seq<char>| line_says(line),
        ) + b.filter_map(|line: Seq<char>| line_says(line)),
    decreases b.len(),
{
    let says = |line: Seq<char>| line_says(line);
    if b.len() == 0 {
        assert(a + b == a);
        assert(a.filter_map(says) + b.filter_map(says) == a.filter_map(says));
    } else {
        lemma_says_concat(a, b.drop_last());
        assert((a + b).drop_last() == a + b.drop_last());
        assert((a + b).last() == b.last());
        assert((a + b).filter_map(says) == a.filter_map(says) + b.filter_map(says));
    }
}

/// A file says what its lines say, wherever it is parted.
pub proof fn law_files_say_what_their_lines_say(a: Seq<char>, b: Seq<char>)
    ensures
        file_says(a.push('\n') + b) == file_says(a) + file_says(b),
{
    lemma_pieces_cut(a, '\n', b);
    lemma_says_concat(pieces(a, '\n'), pieces(b, '\n'));
}

/// Comments and empty lines are ignored: a file says the same without them.
pub proof fn law_ignored_lines_change_nothing(a: Seq<char>, line: Seq<char>, b: Seq<char>)
    requires
        !line.contains('\n'),
        line_says(line) is None,
    ensures
        file_says(a.push('\n') + line.push('\n') + b) == file_says(a.push('\n') + b),
{
    law_files_say_what_their_lines_say(a, b);
    law_files_say_what_their_lines_say(a, line.push('\n') + b);
    law_files_say_what_their_lines_say(line, b);
    lemma_pieces_plain(line, '\n');
    assert(a.push('\n') + line.push('\n') + b == a.push('\n') + (line.push('\n') + b));
    let says = |line: Seq<char>| line_says(line);
    assert(seq![line].drop_last() == Seq::<Seq<char>>::empty());
    assert(Seq::<Seq<char>>::empty().filter_map(says) == Seq::<LineModel>::empty());
    assert(file_says(line) == Seq::<LineModel>::empty());
    assert(Seq::<LineModel>::empty() + file_says(b) == file_says(b));
}

/// A line that starts with `//` or `#`, whatever follows, is a comment.
pub proof fn law_comments_say_nothing(line: Seq<char>)
    requires
        "//"@.is_prefix_of(trimmed(line)) || "#"@.is_prefix_of(trimmed(line)),
    ensures
        line_says(line) is None,
{
}

/// A clause names its backend, and what stands behind it is the selector.
pub proof fn law_clause_names_its_backend(backend: Seq<char>, selector: Seq<char>)
    requires
        backend.len() > 0,
        !is_space(backend.first()) && !is_space(backend.last()),
        !backend.contains(',') && !backend.contains(')'),
        selector.len() > 0,
        !is_space(selector.first()) && !is_space(selector.last()),
    ensures
        line_says("fails-if("@ + backend + ") "@ + selector) == Some(
            LineModel { selector, fails_if: seq![backend] },
        ),
{
    let text = "fails-if("@ + backend + ") "@ + selector;
    reveal_strlit("fails-if(");
    reveal_strlit(") ");
    reveal_strlit("//");
    reveal_strlit("#");
    assert(text.first() == 'f' && text.last() == selector.last());
    assert(trimmed(text) == text);
    if "//"@.is_prefix_of(text) {
        assert("//"@[0] == text[0]);
    }
    if "#"@.is_prefix_of(text) {
        assert("#"@[0] == text[0]);
    }
    assert("fails-if("@ == text.subrange(0, 9));
    let close = 9 + backend.len() as int;
    assert(text[close] == ')' && text[close + 1] == ' ');
    assert(text.contains(')'));
    text.index_of_first_ensures(')');
    let first = text.index_of_first(')')->0;
    if first < close {
        if first < 9 {
            assert(text[first] == "fails-if("@[first]);
        } else {
            assert(text[first] == backend[first - 9]);
        }
    }
    assert(text.subrange(9, close) == backend);
    let rest = text.skip(close + 1);
    assert(rest.drop_first() == selector);
    assert(start_trimmed(rest) == selector) by {
        reveal_with_fuel(start_trimmed, 2);
    }
    lemma_pieces_plain(backend, ',');
    assert(trimmed(backend) == backend);
    let filled = |s: Seq<char>| s.len() > 0;
    let parts = pieces(backend, ',').map_values(|s: Seq<char>| trimmed(s));
    assert(parts == seq![backend]);
    assert(parts.filter(filled) == seq![backend]) by {
        reveal_with_fuel(Seq::filter, 2);
        assert(parts.drop_last() == Seq::<Seq<char>>::empty());
    }
}

/// `s` without the white space at its end, and, where `both` says so, at its
/// start.
spec fn shorn(s: Seq<char>, both: bool) -> Seq<char> {
    if both {
        trimmed(s)
    } else {
        end_trimmed(s)
    }
}

/// The pieces of `s` between `at`, each without the white space at its end, and,
/// where `both` says so, at its start, but for the empty ones.
fn split_filled(s: &str, at: char, both: bool) -> (list: Vec<String>)
    ensures
        texts(list@) == pieces(s@, at).map_values(|s: Seq<char>| shorn(s, both)).filter(
            |s: Seq<char>| s.len() > 0,
        ),
{
    let parts = split(s, at);
    let ghost all = pieces(s@, at).map_values(|s: Seq<char>| shorn(s, both));
    let ghost filled = |s: Seq<char>| s.len() > 0;
    let mut list: Vec<String> = Vec::new();
    let mut i: usize = 0;
    reveal(Seq::filter);
    assert(texts(list@) == all.take(0).filter(filled));
    while i < parts.len()
        invariant
            texts(parts@) == pieces(s@, at),
            all == pieces(s@, at).map_values(|s: Seq<char>| shorn(s, both)),
            filled == (|s: Seq<char>| s.len() > 0),
            i <= parts@.len(),
            texts(list@) == all.take(i as int).filter(filled),
        decreases parts@.len() - i,
    {
        let part = if both {
            trim(&parts[i])
        } else {
            trim_end(&parts[i])
        };
        let ghost before = texts(list@);
        proof {
            assert(texts(parts@)[i as int] == parts@[i as int]@);
            assert(all[i as int] == part@);
            assert(all.take(i + 1) == all.take(i as int).push(part@));
            all.take(i as int).lemma_filter_push(part@, filled);
        }
        if !part.is_empty() {
            list.push(part.to_owned());
            assert(texts(list@) == before.push(part@));
        }
        i = i + 1;
    }
    assert(texts(parts@).len() == parts@.len());
    assert(all.take(i as int) == all);
    list
}

/// Where the first `)` of `text` stands.
fn find_close(text: &[char]) -> (close: Option<usize>)
    ensures
        match close {
            Some(at) => text@.index_of_first(')') == Some(at as int) && at < text@.len(),
            None => text@.index_of_first(')') is None,
        },
{
    proof {
        text@.index_of_first_ensures(')');
    }
    let mut i: usize = 0;
    while i < text.len()
        invariant
            i <= text@.len(),
            forall|j: int| 0 <= j < i ==> text@[j] != ')',
        decreases text@.len() - i,
    {
        if text[i] == ')' {
            proof {
                text@.index_of_first_ensures(')');
                assert(text@.contains(')'));
            }
            return Some(i);
        }
        i = i + 1;
    }
    assert(!text@.contains(')'));
    None
}

/// Parses a line of a `.lst` file: `None` for empty lines and comments.
pub fn parse_lst_line(line: &str) -> (parsed: Option<LstLine>)
    ensures
        match parsed {
            Some(parsed) => line_says(line@) == Some(parsed@),
            None => line_says(line@) is None,
        },
{
    let text = trim(line);
    if text.is_empty() || starts_with(text, "//") || starts_with(text, "#") {
        return None;
    }
    if starts_with(text, "fails-if(") {
        let chars = chars_of(text);
        if let Some(close) = find_close(&chars) {
            if close < chars.len() - 1 && is_white_space(chars[close + 1]) {
                proof {
                    reveal_strlit("fails-if(");
                    lemma_close_behind(text@, close as int);
                }
                let inner = text.substring_char(9, close);
                assert(pieces(inner@, ',').map_values(|s: Seq<char>| shorn(s, true)) == pieces(
                    inner@,
                    ',',
                ).map_values(|s: Seq<char>| trimmed(s)));
                let rest = text.substring_char(close + 1, chars.len());
                assert(rest@ == text@.skip(close + 1));
                return Some(
                    LstLine {
                        selector: trim_start(rest).to_owned(),
                        fails_if: split_filled(inner, ',', true),
                    },
                );
            }
        }
    }
    let none: Vec<String> = Vec::new();
    assert(texts(none@) == Seq::<Seq<char>>::empty());
    Some(LstLine { selector: text.to_owned(), fails_if: none })
}

/// A clause closes behind its opening.
proof fn lemma_close_behind(text: Seq<char>, close: int)
    requires
        "fails-if("@.is_prefix_of(text),
        text.index_of_first(')') == Some(close),
    ensures
        "fails-if("@.len() == 9,
        9 <= close,
{
    reveal_strlit("fails-if(");
    text.index_of_first_ensures(')');
    let head = "fails-if("@;
    if close < 9 {
        assert(head[close] == text[close]);
    }
}

/// The lines of a `.lst` file.
pub fn parse_lst(contents: &str) -> (lines: Vec<LstLine>)
    ensures
        lines@.map_values(|line: LstLine| line@) == file_says(contents@),
{
    let parts = split(contents, '\n');
    let ghost all = pieces(contents@, '\n');
    let ghost says = |line: Seq<char>| line_says(line);
    let ghost view = |line: LstLine| line@;
    let mut lines: Vec<LstLine> = Vec::new();
    let mut i: usize = 0;
    assert(lines@.map_values(view) == all.take(0).filter_map(says));
    while i < parts.len()
        invariant
            all == texts(parts@),
            all == pieces(contents@, '\n'),
            says == (|line: Seq<char>| line_says(line)),
            view == (|line: LstLine| line@),
            i <= parts@.len(),
            lines@.map_values(view) == all.take(i as int).filter_map(says),
        decreases parts@.len() - i,
    {
        let ghost before = lines@;
        proof {
            assert(all[i as int] == parts@[i as int]@);
            assert(all.take(i + 1).drop_last() == all.take(i as int));
        }
        if let Some(line) = parse_lst_line(&parts[i]) {
            lines.push(line);
            assert(lines@.map_values(view) == before.map_values(view) + seq![line@]);
        }
        i = i + 1;
    }
    assert(all.take(i as int) == all);
    lines
}

/// The line of a test that is named on the command line.
pub open spec fn named_line(selector: Seq<char>) -> LineModel {
    LineModel { selector, fails_if: Seq::empty() }
}

/// The tests of a run: the leading positional of the command line at the front,
/// then the other selectors named there, then the lines of each test list.
pub open spec fn gathered(
    leading: Option<Seq<char>>,
    named: Seq<Seq<char>>,
    files: Seq<Seq<char>>,
) -> Seq<LineModel> {
    (match leading {
        Some(selector) => seq![named_line(selector)],
        None => Seq::empty(),
    }) + named.map_values(|s: Seq<char>| named_line(s)) + files.map_values(
        |contents: Seq<char>| file_says(contents),
    ).flatten()
}

/// Adds a test that is named on the command line.
fn add_named(selector: String, tests: &mut Vec<LstLine>)
    ensures
        final(tests)@.map_values(|line: LstLine| line@) == old(tests)@.map_values(
            |line: LstLine| line@,
        ).push(named_line(selector@)),
{
    let ghost text = selector@;
    let fails_if: Vec<String> = Vec::new();
    assert(texts(fails_if@) == Seq::<Seq<char>>::empty());
    tests.push(LstLine { selector, fails_if });
    assert(tests@.last()@ == named_line(text));
    assert(tests@.map_values(|line: LstLine| line@) == old(tests)@.map_values(
        |line: LstLine| line@,
    ).push(named_line(text)));
}

/// Gathers the tests of a run, given the selectors named on the command line and
/// what each test list holds.
pub fn gather(leading: Option<String>, named: Vec<String>, files: Vec<String>) -> (tests: Vec<
    LstLine,
>)
    ensures
        tests@.map_values(|line: LstLine| line@) == gathered(
            match leading {
                Some(selector) => Some(selector@),
                None => None,
            },
            texts(named@),
            texts(files@),
        ),
{
    let ghost view = |line: LstLine| line@;
    let ghost said = texts(files@).map_values(|contents: Seq<char>| file_says(contents));
    let mut tests: Vec<LstLine> = Vec::new();
    assert(tests@.map_values(view) == Seq::<LineModel>::empty());
    if let Some(selector) = leading {
        add_named(selector, &mut tests);
    }
    let ghost front = tests@.map_values(view);
    let ghost words = texts(named@).map_values(|s: Seq<char>| named_line(s));
    assert(front + words.take(0) == front);
    for selector in it: named
        invariant
            view == (|line: LstLine| line@),
            words == texts(it.seq()).map_values(|s: Seq<char>| named_line(s)),
            tests@.map_values(view) == front + words.take(it.index() as int),
    {
        let ghost i = it.index() as int;
        assert(words[i] == named_line(selector@));
        assert(words.take(i + 1) == words.take(i).push(words[i]));
        add_named(selector, &mut tests);
    }
    assert(words.take(words.len() as int) == words);
    let ghost head = tests@.map_values(view);
    let mut i: usize = 0;
    assert(said.take(0).flatten() == Seq::<LineModel>::empty());
    assert(head + Seq::<LineModel>::empty() == head);
    while i < files.len()
        invariant
            view == (|line: LstLine| line@),
            said == texts(files@).map_values(|contents: Seq<char>| file_says(contents)),
            i <= files@.len(),
            tests@.map_values(view) == head + said.take(i as int).flatten(),
        decreases files@.len() - i,
    {
        let ghost before = tests@;
        let mut lines = parse_lst(&files[i]);
        let ghost more = lines@;
        tests.append(&mut lines);
        proof {
            assert(more.map_values(view) == said[i as int]);
            assert(tests@.map_values(view) == before.map_values(view) + more.map_values(view));
            assert(said.take(i + 1) == said.take(i as int).push(said[i as int]));
            said.take(i as int).lemma_flatten_push(said[i as int]);
            assert(head + said.take(i as int).flatten() + said[i as int] == head + (said.take(
                i as int,
            ).flatten() + said[i as int]));
        }
        i = i + 1;
    }
    assert(said.take(i as int) == said);
    tests
}

/// Adds the patterns of the list `source`.
fn add_patterns(contents: Option<&str>, source: LstFile, patterns: &mut Vec<Pattern>)
    ensures
        all_models(final(patterns)@) == all_models(old(patterns)@) + file_patterns(
            opt_text(contents),
            source,
        ),
{
    let ghost before = all_models(patterns@);
    let text = match contents {
        Some(text) => text,
        None => {
            assert(before + Seq::<PatternModel>::empty() == before);
            return;
        },
    };
    let lines = parse_lst(text);
    let ghost all = lines@.map_values(|line: LstLine| line@);
    let ghost made = |line: LineModel| compiled(line, source);
    assert(before + all.take(0).map_values(made) == before);
    for line in it: lines
        invariant
            all == it.seq().map_values(|line: LstLine| line@),
            made == (|line: LineModel| compiled(line, source)),
            all_models(patterns@) == before + all.take(it.index() as int).map_values(made),
    {
        let ghost held = patterns@;
        let ghost i = it.index() as int;
        let ghost model = line@;
        let pattern = Pattern::new(line, source);
        patterns.push(pattern);
        proof {
            assert(model == all[i]);
            assert(all_models(patterns@) == all_models(held).push(pattern@));
            assert(all.take(i + 1).map_values(made) == all.take(i).map_values(made).push(pattern@));
        }
    }
    assert(all.take(all.len() as int) == all);
}

/// Why the lists could not be read.
#[derive(Clone, Copy, PartialEq, Eq, Debug, Structural)]
pub enum ListError {
    /// A list that has to exist does not.
    NotFound(LstFile),
}

impl ListError {
    /// What to tell the user.
    pub fn message(&self) -> (message: String)
        ensures
            self matches ListError::NotFound(file) ==> message@ == "`"@ + file.location()
                + "` not found"@,
    {
        match self {
            ListError::NotFound(file) => "`".to_owned().concat(file.path()).concat("` not found"),
        }
    }
}

/// Compiles every `.lst` file, given what each holds, or `None` where it does
/// not exist. `test.lst` must exist; the other two are optional.
pub fn load_patterns(test: Option<&str>, fail: Option<&str>, skip: Option<&str>) -> (loaded: Result<
    Vec<Pattern>,
    ListError,
>)
    ensures
        match loaded {
            Ok(patterns) => {
                &&& test is Some
                &&& all_models(patterns@) == file_patterns(opt_text(test), LstFile::Test)
                    + file_patterns(opt_text(fail), LstFile::Fail) + file_patterns(
                    opt_text(skip),
                    LstFile::Skip,
                )
            },
            Err(error) => test is None && error == ListError::NotFound(LstFile::Test),
        },
{
    if test.is_none() {
        return Err(ListError::NotFound(LstFile::Test));
    }
    let mut patterns: Vec<Pattern> = Vec::new();
    assert(all_models(patterns@) == Seq::<PatternModel>::empty());
    add_patterns(test, LstFile::Test, &mut patterns);
    add_patterns(fail, LstFile::Fail, &mut patterns);
    add_patterns(skip, LstFile::Skip, &mut patterns);
    Ok(patterns)
}

/// What the CTS lists, one selector to a line.
pub open spec fn selectors_listed(output: Seq<char>) -> Seq<Seq<char>> {
    pieces(output, '\n').map_values(|s: Seq<char>| end_trimmed(s)).filter(
        |s: Seq<char>| s.len() > 0,
    )
}

/// The selectors in what the CTS printed when asked to list them.
pub fn listed_selectors(output: &str) -> (list: Vec<String>)
    ensures
        texts(list@) == selectors_listed(output@),
{
    assert(pieces(output@, '\n').map_values(|s: Seq<char>| shorn(s, false)) == pieces(
        output@,
        '\n',
    ).map_values(|s: Seq<char>| end_trimmed(s)));
    split_filled(output, '\n', false)
}

/// Selectors verified when none are given on the command line.
pub open spec fn default_selectors() -> Seq<Seq<char>> {
    seq!["webgpu:api,validation,*"@, "webgpu:shader,validation,*"@]
}

/// The selectors to verify: those given, or the default ones if none are.
pub fn selectors_to_verify(given: Vec<String>) -> (selectors: Vec<String>)
    ensures
        texts(selectors@) == if given@.len() == 0 {
            default_selectors()
        } else {
            texts(given@)
        },
{
    if given.len() > 0 {
        return given;
    }
    let selectors = vec![
        "webgpu:api,validation,*".to_owned(),
        "webgpu:shader,validation,*".to_owned(),
    ];
    assert(texts(selectors@) == default_selectors());
    selectors
}

} // verus!
