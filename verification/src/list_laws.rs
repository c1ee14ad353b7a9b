//! What holds of every list.

use crate::list::{
    file_patterns, file_says, gathered, has_clause, line_says, selectors_listed, LineModel,
};
use crate::pattern::{LstFile, PatternModel, WILDCARD};
use crate::text::{
    end_trimmed, is_space, joined, lemma_pieces_cut, lemma_pieces_plain, pieces, start_trimmed,
    trimmed,
};
use crate::text_laws::law_joined_parts_come_back;
use vstd::prelude::*;

verus! {

/// A file of one line says what the line says.
pub proof fn law_one_line_file(line: Seq<char>)
    requires
        !line.contains('\n'),
    ensures
        file_says(line) == match line_says(line) {
            Some(said) => seq![said],
            None => Seq::empty(),
        },
{
    lemma_pieces_plain(line, '\n');
    let says = |line: Seq<char>| line_says(line);
    assert(seq![line].drop_last() == Seq::<Seq<char>>::empty());
    assert(Seq::<Seq<char>>::empty().filter_map(says) == Seq::<LineModel>::empty());
    assert(seq![line].last() == line);
    assert(seq![line].filter_map(says) == match says(line) {
        Some(said) => seq![said],
        None => Seq::empty(),
    });
}

/// An empty line says nothing, and neither does one of white space.
pub proof fn law_blank_lines_say_nothing(line: Seq<char>)
    requires
        forall|i: int| 0 <= i < line.len() ==> is_space(#[trigger] line[i]),
    ensures
        line_says(line) is None,
{
    lemma_blank(line);
}

proof fn lemma_blank(line: Seq<char>)
    requires
        forall|i: int| 0 <= i < line.len() ==> is_space(#[trigger] line[i]),
    ensures
        end_trimmed(line).len() == 0,
    decreases line.len(),
{
    if line.len() > 0 {
        assert(is_space(line[line.len() - 1]));
        assert forall|i: int| 0 <= i < line.drop_last().len() implies is_space(
            #[trigger] line.drop_last()[i],
        ) by {
            assert(is_space(line[i]));
        }
        lemma_blank(line.drop_last());
    }
}

/// A line that is not a comment and does not start with a clause is a selector, as
/// it stands but for the white space around it.
pub proof fn law_plain_line_is_a_selector(line: Seq<char>)
    requires
        trimmed(line).len() > 0,
        !"//"@.is_prefix_of(trimmed(line)),
        !"#"@.is_prefix_of(trimmed(line)),
        !"fails-if("@.is_prefix_of(trimmed(line)),
    ensures
        line_says(line) == Some(LineModel { selector: trimmed(line), fails_if: Seq::empty() }),
{
}

/// Where the first `)` stands.
proof fn lemma_first_close(text: Seq<char>, close: int)
    requires
        0 <= close < text.len(),
        text[close] == ')',
        forall|i: int| 0 <= i < close ==> text[i] != ')',
    ensures
        text.index_of_first(')') == Some(close),
{
    assert(text.contains(')'));
    text.index_of_first_ensures(')');
}

/// A clause that does not close, or has no white space behind it, is part of the
/// selector.
pub proof fn law_unfinished_clause_is_a_selector(inner: Seq<char>, rest: Seq<char>)
    requires
        !inner.contains(')'),
        rest.len() > 0 ==> rest[0] == ')' && !is_space(rest.last()),
        rest.len() > 1 ==> !is_space(rest[1]),
        rest.len() == 0 && inner.len() > 0 ==> !is_space(inner.last()),
    ensures
        line_says("fails-if("@ + inner + rest) == Some(
            LineModel { selector: "fails-if("@ + inner + rest, fails_if: Seq::empty() },
        ),
{
    let text = "fails-if("@ + inner + rest;
    reveal_strlit("fails-if(");
    reveal_strlit("//");
    reveal_strlit("#");
    assert(text.first() == 'f');
    assert(!is_space(text.last()));
    assert(trimmed(text) == text);
    if "//"@.is_prefix_of(text) {
        assert("//"@[0] == text[0]);
    }
    if "#"@.is_prefix_of(text) {
        assert("#"@[0] == text[0]);
    }
    let close = 9 + inner.len() as int;
    assert forall|i: int| 0 <= i < close implies text[i] != ')' by {
        if i < 9 {
            assert(text[i] == "fails-if("@[i]);
        } else {
            assert(text[i] == inner[i - 9]);
        }
    }
    if rest.len() > 0 {
        assert(text[close] == rest[0]);
        lemma_first_close(text, close);
        if rest.len() > 1 {
            assert(text[close + 1] == rest[1]);
        }
    } else {
        text.index_of_first_ensures(')');
        assert(!text.contains(')'));
    }
    assert(!has_clause(text));
}

/// Where no part holds a character, the parts joined with another do not.
proof fn lemma_joined_without(parts: Seq<Seq<char>>, at: char, c: char)
    requires
        at != c,
        forall|i: int| 0 <= i < parts.len() ==> !(#[trigger] parts[i]).contains(c),
    ensures
        !joined(parts, at).contains(c),
    decreases parts.len(),
{
    let all = joined(parts, at);
    if parts.len() > 1 {
        let init = parts.drop_last();
        assert forall|i: int| 0 <= i < init.len() implies !(#[trigger] init[i]).contains(c) by {
            assert(init[i] == parts[i]);
        }
        lemma_joined_without(init, at, c);
        let head = joined(init, at);
        let last = parts[parts.len() - 1];
        if all.contains(c) {
            let k = choose|k: int| 0 <= k < all.len() && all[k] == c;
            if k < head.len() {
                assert(head[k] == c);
            } else if k > head.len() {
                assert(last[k - head.len() - 1] == c);
            }
        }
    }
}

/// A clause names the backends that stand in it between commas, each without the
/// white space around it, but for the empty ones; what stands behind it, without
/// the white space between, is the selector.
pub proof fn law_clause_names_its_backends(
    names: Seq<Seq<char>>,
    space: char,
    selector: Seq<char>,
)
    requires
        names.len() > 0,
        forall|i: int|
            0 <= i < names.len() ==> !(#[trigger] names[i]).contains(',') && !names[i].contains(
                ')',
            ),
        is_space(space),
        selector.len() > 0,
        !is_space(selector.first()) && !is_space(selector.last()),
    ensures
        line_says("fails-if("@ + joined(names, ',') + seq![')', space] + selector) == Some(
            LineModel {
                selector,
                fails_if: names.map_values(|name: Seq<char>| trimmed(name)).filter(
                    |name: Seq<char>| name.len() > 0,
                ),
            },
        ),
{
    let inner = joined(names, ',');
    let text = "fails-if("@ + inner + seq![')', space] + selector;
    reveal_strlit("fails-if(");
    reveal_strlit("//");
    reveal_strlit("#");
    assert(text.first() == 'f' && text.last() == selector.last());
    assert(trimmed(text) == text);
    if "//"@.is_prefix_of(text) {
        assert("//"@[0] == text[0]);
    }
    if "#"@.is_prefix_of(text) {
        assert("#"@[0] == text[0]);
    }
    assert("fails-if("@ == text.subrange(0, 9));
    lemma_joined_without(names, ',', ')');
    let close = 9 + inner.len() as int;
    assert(text[close] == ')' && text[close + 1] == space);
    assert forall|i: int| 0 <= i < close implies text[i] != ')' by {
        if i < 9 {
            assert(text[i] == "fails-if("@[i]);
        } else {
            assert(text[i] == inner[i - 9]);
        }
    }
    lemma_first_close(text, close);
    assert(has_clause(text));
    assert(text.subrange(9, close) == inner);
    let rest = text.skip(close + 1);
    assert(rest.drop_first() == selector);
    assert(start_trimmed(rest) == selector) by {
        reveal_with_fuel(start_trimmed, 2);
    }
    law_joined_parts_come_back(names, ',');
}

/// Each line of a `.lst` file makes a pattern, in its place: its selector, cut at
/// the wildcards, the list it is in, and whether it names a backend. A file that
/// does not exist makes none.
pub proof fn law_lines_become_patterns(contents: Seq<char>, source: LstFile, i: int)
    requires
        0 <= i < file_says(contents).len(),
    ensures
        file_patterns(None, source).len() == 0,
        file_patterns(Some(contents), source).len() == file_says(contents).len(),
        file_patterns(Some(contents), source)[i] == (PatternModel {
            segments: pieces(file_says(contents)[i].selector, WILDCARD),
            source,
            has_fails_if: file_says(contents)[i].fails_if.len() >= 1,
        }),
{
}

/// A line that the CTS lists is a selector, as it stands but for the white space
/// at its end, unless that is all.
pub proof fn law_listed_line(line: Seq<char>)
    requires
        !line.contains('\n'),
    ensures
        selectors_listed(line) == if end_trimmed(line).len() > 0 {
            seq![end_trimmed(line)]
        } else {
            Seq::empty()
        },
{
    lemma_pieces_plain(line, '\n');
    reveal_with_fuel(Seq::filter, 2);
    let all = seq![line].map_values(|s: Seq<char>| end_trimmed(s));
    assert(all == seq![end_trimmed(line)]);
    assert(all.drop_last() == Seq::<Seq<char>>::empty());
}

/// What the CTS lists is what its lines list, one after the other.
pub proof fn law_listed_line_by_line(a: Seq<char>, b: Seq<char>)
    ensures
        selectors_listed(a.push('\n') + b) == selectors_listed(a) + selectors_listed(b),
{
    lemma_pieces_cut(a, '\n', b);
    let cut = |s: Seq<char>| end_trimmed(s);
    let filled = |s: Seq<char>| s.len() > 0;
    let x = pieces(a, '\n').map_values(cut);
    let y = pieces(b, '\n').map_values(cut);
    assert((pieces(a, '\n') + pieces(b, '\n')).map_values(cut) == x + y);
    Seq::filter_distributes_over_add(x, y, filled);
}

/// A selector named on the command line is a test whose line names no backend, in
/// its place.
pub proof fn law_named_tests_stand_in_their_order(named: Seq<Seq<char>>, i: int)
    requires
        0 <= i < named.len(),
    ensures
        gathered(None, named, Seq::empty()).len() == named.len(),
        gathered(None, named, Seq::empty())[i].selector == named[i],
        gathered(None, named, Seq::empty())[i].fails_if.len() == 0,
{
    let files = Seq::<Seq<char>>::empty().map_values(|contents: Seq<char>| file_says(contents));
    assert(files.flatten().len() == 0);
}

/// The leading selector stands in front of all the other tests.
pub proof fn law_leading_test_comes_first(
    leading: Seq<char>,
    named: Seq<Seq<char>>,
    files: Seq<Seq<char>>,
)
    ensures
        gathered(Some(leading), named, files) == gathered(None, seq![leading] + named, files),
        gathered(Some(leading), named, files)[0].selector == leading,
        gathered(Some(leading), named, files).skip(1) == gathered(None, named, files),
{
    let all = gathered(Some(leading), named, files);
    let others = gathered(None, named, files);
    assert(all.skip(1) == others);
    assert(gathered(None, seq![leading] + named, files) == all);
}

/// The tests of a list stand behind all that was gathered before, as its lines say.
pub proof fn law_lists_follow_in_their_order(
    leading: Option<Seq<char>>,
    named: Seq<Seq<char>>,
    files: Seq<Seq<char>>,
    contents: Seq<char>,
)
    ensures
        gathered(leading, named, files.push(contents)) == gathered(leading, named, files)
            + file_says(contents),
{
    let says = |contents: Seq<char>| file_says(contents);
    assert(files.push(contents).map_values(says) == files.map_values(says).push(
        file_says(contents),
    ));
    files.map_values(says).lemma_flatten_push(file_says(contents));
    assert(gathered(leading, named, files.push(contents)) == gathered(leading, named, files)
        + file_says(contents));
}

} // verus!
