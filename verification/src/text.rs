//! Text as sequences of characters: the vocabulary that the contracts of the
//! other modules share, and the few string operations that they need.

use vstd::prelude::*;

verus! {

/// What each of a list of strings holds.
pub open spec fn texts(strings: Seq<String>) -> Seq<Seq<char>> {
    strings.map_values(|s: String| s@)
}

/// What an optional string holds.
pub open spec fn opt_text(s: Option<&str>) -> Option<Seq<char>> {
    match s {
        Some(s) => Some(s@),
        None => None,
    }
}

/// The characters of `s`, in order.
pub fn chars_of(s: &str) -> (chars: Vec<char>)
    ensures
        chars@ == s@,
{
    let mut chars: Vec<char> = Vec::new();
    for c in it: s.chars()
        invariant
            it.seq() == s@,
            chars@ == s@.take(it.index() as int),
    {
        chars.push(c);
    }
    assert(s@.take(s@.len() as int) == s@);
    chars
}

/// Whether `piece` stands in `text` at index `at`.
pub fn occurs_at(text: &[char], at: usize, piece: &[char]) -> (found: bool)
    requires
        at <= text@.len(),
    ensures
        found == piece@.is_prefix_of(text@.skip(at as int)),
{
    if piece.len() > text.len() - at {
        return false;
    }
    let end = at + piece.len();
    let mut i: usize = 0;
    while i < piece.len()
        invariant
            end == at + piece@.len() <= text@.len(),
            i <= piece@.len(),
            forall|j: int| 0 <= j < i ==> piece@[j] == text@[at + j],
        decreases piece@.len() - i,
    {
        if piece[i] != text[at + i] {
            assert(text@.skip(at as int)[i as int] != piece@[i as int]);
            return false;
        }
        i = i + 1;
    }
    true
}

/// The first index at or after `from` at which `piece` stands in `text`.
pub fn find_from(text: &[char], from: usize, piece: &[char]) -> (found: Option<usize>)
    requires
        from <= text@.len(),
    ensures
        match found {
            Some(at) => {
                &&& from <= at <= text@.len()
                &&& piece@.is_prefix_of(text@.skip(at as int))
                &&& forall|i: int|
                    from <= i < at ==> !piece@.is_prefix_of(#[trigger] text@.skip(i))
            },
            None => forall|i: int|
                from <= i <= text@.len() ==> !piece@.is_prefix_of(#[trigger] text@.skip(i)),
        },
{
    let mut at: usize = from;
    loop
        invariant
            from <= at <= text@.len(),
            forall|i: int| from <= i < at ==> !piece@.is_prefix_of(#[trigger] text@.skip(i)),
        decreases text@.len() - at,
    {
        if occurs_at(text, at, piece) {
            return Some(at);
        }
        if at == text.len() {
            return None;
        }
        at = at + 1;
    }
}

/// Whether `s` starts with `prefix`.
pub fn starts_with(s: &str, prefix: &str) -> (found: bool)
    ensures
        found == prefix@.is_prefix_of(s@),
{
    let text = chars_of(s);
    let piece = chars_of(prefix);
    assert(text@.skip(0) == text@);
    occurs_at(&text, 0, &piece)
}

/// The pieces of `s` between the occurrences of `at`: one more than there are
/// occurrences.
pub open spec fn pieces(s: Seq<char>, at: char) -> Seq<Seq<char>>
    decreases s.len(),
{
    if s.len() == 0 {
        seq![Seq::empty()]
    } else {
        let before = pieces(s.drop_last(), at);
        if s.last() == at {
            before.push(Seq::empty())
        } else {
            before.drop_last().push(before.last().push(s.last()))
        }
    }
}

/// Even the empty text is one piece.
pub proof fn lemma_some_piece(s: Seq<char>, at: char)
    ensures
        pieces(s, at).len() > 0,
    decreases s.len(),
{
    if s.len() > 0 {
        lemma_some_piece(s.drop_last(), at);
    }
}

/// A separator cuts a text into the pieces before it and the pieces behind it.
pub proof fn lemma_pieces_cut(a: Seq<char>, at: char, b: Seq<char>)
    ensures
        pieces(a.push(at) + b, at) == pieces(a, at) + pieces(b, at),
    decreases b.len(),
{
    let whole = a.push(at) + b;
    if b.len() == 0 {
        assert(whole == a.push(at));
        assert(whole.drop_last() == a);
        assert(pieces(a, at).push(Seq::empty()) == pieces(a, at) + pieces(b, at));
    } else {
        lemma_pieces_cut(a, at, b.drop_last());
        lemma_some_piece(b.drop_last(), at);
        let head = pieces(a, at);
        let tail = pieces(b.drop_last(), at);
        assert(whole.drop_last() == a.push(at) + b.drop_last());
        assert(whole.last() == b.last());
        assert((head + tail).drop_last() == head + tail.drop_last());
        assert((head + tail).last() == tail.last());
        if b.last() == at {
            assert((head + tail).push(Seq::empty()) == head + tail.push(Seq::empty()));
        } else {
            let last = tail.last().push(b.last());
            assert((head + tail.drop_last()).push(last) == head + tail.drop_last().push(last));
        }
    }
}

/// A text without a separator is its only piece.
pub proof fn lemma_pieces_plain(s: Seq<char>, at: char)
    requires
        !s.contains(at),
    ensures
        pieces(s, at) == seq![s],
    decreases s.len(),
{
    if s.len() > 0 {
        assert(s.last() != at) by {
            assert(s[s.len() - 1] == s.last());
        }
        assert forall|i: int| 0 <= i < s.drop_last().len() implies s.drop_last()[i] != at by {
            assert(s[i] != at);
        }
        lemma_pieces_plain(s.drop_last(), at);
        assert(s.drop_last().push(s.last()) == s);
        assert(seq![s.drop_last()].drop_last().push(s) == seq![s]);
    } else {
        assert(s == Seq::<char>::empty());
    }
}

/// The parts with `at` between each and the next.
pub open spec fn joined(parts: Seq<Seq<char>>, at: char) -> Seq<char>
    decreases parts.len(),
{
    if parts.len() == 0 {
        Seq::empty()
    } else if parts.len() == 1 {
        parts[0]
    } else {
        joined(parts.drop_last(), at).push(at) + parts.last()
    }
}

/// Cutting a text loses nothing, and leaves no separator in the pieces.
pub proof fn law_pieces_join(s: Seq<char>, at: char)
    ensures
        joined(pieces(s, at), at) == s,
        forall|i: int|
            0 <= i < pieces(s, at).len() ==> !(#[trigger] pieces(s, at)[i]).contains(at),
    decreases s.len(),
{
    lemma_some_piece(s, at);
    let parts = pieces(s, at);
    if s.len() > 0 {
        law_pieces_join(s.drop_last(), at);
        lemma_some_piece(s.drop_last(), at);
        let before = pieces(s.drop_last(), at);
        assert(s == s.drop_last().push(s.last()));
        if s.last() == at {
            assert(parts.drop_last() == before);
            assert(joined(parts, at) == s);
            assert forall|i: int| 0 <= i < parts.len() implies !(#[trigger] parts[i]).contains(
                at,
            ) by {
                if i < before.len() {
                    assert(parts[i] == before[i]);
                }
            }
        } else {
            let last = before.last().push(s.last());
            assert(parts.drop_last() == before.drop_last());
            assert(parts.last() == last);
            assert(joined(parts, at) == s);
            assert forall|i: int| 0 <= i < parts.len() implies !(#[trigger] parts[i]).contains(
                at,
            ) by {
                if i < parts.len() - 1 {
                    assert(parts[i] == before[i]);
                } else if last.contains(at) {
                    let k = choose|k: int| 0 <= k < last.len() && last[k] == at;
                    assert(before[before.len() - 1][k] == at);
                }
            }
        }
    }
}

/// Cuts `s` at each `at`.
pub fn split(s: &str, at: char) -> (parts: Vec<String>)
    ensures
        texts(parts@) == pieces(s@, at),
{
    let text = chars_of(s);
    let mut parts: Vec<String> = Vec::new();
    let mut start: usize = 0;
    let mut i: usize = 0;
    assert(s@.take(0) == Seq::<char>::empty());
    while i < text.len()
        invariant
            text@ == s@,
            start <= i <= text@.len(),
            pieces(s@.take(i as int), at) == texts(parts@).push(s@.subrange(start as int, i as int)),
        decreases text@.len() - i,
    {
        let ghost before = texts(parts@);
        let ghost grown = s@.take(i + 1);
        assert(grown.drop_last() == s@.take(i as int));
        if text[i] == at {
            let part = s.substring_char(start, i).to_owned();
            parts.push(part);
            assert(texts(parts@) == before.push(part@));
            start = i + 1;
            assert(s@.subrange(start as int, i + 1) == Seq::<char>::empty());
        } else {
            let ghost last = s@.subrange(start as int, i as int);
            assert(s@.subrange(start as int, i + 1) == last.push(text@[i as int]));
            assert(before.push(last).drop_last() == before);
        }
        i = i + 1;
    }
    assert(s@.take(s@.len() as int) == s@);
    let ghost before = texts(parts@);
    let part = s.substring_char(start, i).to_owned();
    parts.push(part);
    assert(texts(parts@) == before.push(part@));
    parts
}

/// Whether `c` has the Unicode property White_Space.
pub open spec fn is_space(c: char) -> bool {
    ||| '\u{9}' <= c <= '\u{d}'
    ||| c == '\u{20}'
    ||| c == '\u{85}'
    ||| c == '\u{a0}'
    ||| c == '\u{1680}'
    ||| '\u{2000}' <= c <= '\u{200a}'
    ||| c == '\u{2028}'
    ||| c == '\u{2029}'
    ||| c == '\u{202f}'
    ||| c == '\u{205f}'
    ||| c == '\u{3000}'
}

/// Whether `c` is white space.
pub fn is_white_space(c: char) -> (yes: bool)
    ensures
        yes == is_space(c),
{
    ('\u{9}' <= c && c <= '\u{d}') || c == '\u{20}' || c == '\u{85}' || c == '\u{a0}' || c
        == '\u{1680}' || ('\u{2000}' <= c && c <= '\u{200a}') || c == '\u{2028}' || c
        == '\u{2029}' || c == '\u{202f}' || c == '\u{205f}' || c == '\u{3000}'
}

/// `s` without the white space at its end.
pub open spec fn end_trimmed(s: Seq<char>) -> Seq<char>
    decreases s.len(),
{
    if s.len() > 0 && is_space(s.last()) {
        end_trimmed(s.drop_last())
    } else {
        s
    }
}

/// `s` without the white space at its start.
pub open spec fn start_trimmed(s: Seq<char>) -> Seq<char>
    decreases s.len(),
{
    if s.len() > 0 && is_space(s.first()) {
        start_trimmed(s.drop_first())
    } else {
        s
    }
}

/// `s` without the white space around it.
pub open spec fn trimmed(s: Seq<char>) -> Seq<char> {
    start_trimmed(end_trimmed(s))
}

/// Takes the white space off the end of `s`.
pub fn trim_end(s: &str) -> (rest: &str)
    ensures
        rest@ == end_trimmed(s@),
{
    let text = chars_of(s);
    let mut end: usize = text.len();
    assert(s@.take(end as int) == s@);
    while end > 0 && is_white_space(text[end - 1])
        invariant
            text@ == s@,
            end <= text@.len(),
            end_trimmed(s@) == end_trimmed(s@.take(end as int)),
        decreases end,
    {
        assert(s@.take(end as int).drop_last() == s@.take(end - 1));
        end = end - 1;
    }
    s.substring_char(0, end)
}

/// Takes the white space off the start of `s`.
pub fn trim_start(s: &str) -> (rest: &str)
    ensures
        rest@ == start_trimmed(s@),
{
    let text = chars_of(s);
    let mut start: usize = 0;
    assert(s@.skip(0) == s@);
    while start < text.len() && is_white_space(text[start])
        invariant
            text@ == s@,
            start <= text@.len(),
            start_trimmed(s@) == start_trimmed(s@.skip(start as int)),
        decreases text@.len() - start,
    {
        assert(s@.skip(start as int).drop_first() == s@.skip(start + 1));
        start = start + 1;
    }
    s.substring_char(start, text.len())
}

/// Takes the white space around `s` off.
pub fn trim(s: &str) -> (rest: &str)
    ensures
        rest@ == trimmed(s@),
{
    trim_start(trim_end(s))
}

/// `c`, or the lower case letter where `c` is an upper case letter of ASCII.
pub open spec fn lower(c: char) -> char {
    if 'A' <= c <= 'Z' {
        (c as u8 + 32) as char
    } else {
        c
    }
}

/// Whether `s` and `other` agree but for the case of the ASCII letters of `s`.
pub fn lowers_to(s: &str, other: &str) -> (yes: bool)
    ensures
        yes == (s@.map_values(|c: char| lower(c)) == other@),
{
    let text = chars_of(s);
    let goal = chars_of(other);
    let ghost lowered = s@.map_values(|c: char| lower(c));
    if text.len() != goal.len() {
        assert(lowered.len() != other@.len());
        return false;
    }
    let mut i: usize = 0;
    while i < text.len()
        invariant
            text@ == s@,
            goal@ == other@,
            text@.len() == goal@.len(),
            lowered == s@.map_values(|c: char| lower(c)),
            i <= text@.len(),
            forall|j: int| 0 <= j < i ==> lowered[j] == other@[j],
        decreases text@.len() - i,
    {
        let c = text[i];
        let low = if 'A' <= c && c <= 'Z' {
            (c as u8 + 32) as char
        } else {
            c
        };
        assert(low == lowered[i as int]);
        if low != goal[i] {
            return false;
        }
        i = i + 1;
    }
    assert(lowered == other@);
    true
}

/// The decimal digit for `d`.
pub open spec fn digit(d: nat) -> char {
    ('0' as u32 + d) as char
}

/// `n` in decimal.
pub open spec fn decimal(n: nat) -> Seq<char>
    decreases n,
{
    if n < 10 {
        seq![digit(n)]
    } else {
        decimal(n / 10).push(digit(n % 10))
    }
}

/// The decimal digit for `d`.
fn digit_str(d: usize) -> (text: &'static str)
    requires
        d < 10,
    ensures
        text@ == seq![digit(d as nat)],
{
    proof {
        reveal_strlit("0");
        reveal_strlit("1");
        reveal_strlit("2");
        reveal_strlit("3");
        reveal_strlit("4");
        reveal_strlit("5");
        reveal_strlit("6");
        reveal_strlit("7");
        reveal_strlit("8");
        reveal_strlit("9");
    }
    match d {
        0 => "0",
        1 => "1",
        2 => "2",
        3 => "3",
        4 => "4",
        5 => "5",
        6 => "6",
        7 => "7",
        8 => "8",
        _ => "9",
    }
}

/// Writes `n` in decimal.
pub fn to_decimal(n: usize) -> (text: String)
    ensures
        text@ == decimal(n as nat),
    decreases n,
{
    if n < 10 {
        digit_str(n).to_owned()
    } else {
        let head = to_decimal(n / 10);
        let text = head.concat(digit_str(n % 10));
        assert(text@ == decimal(n as nat));
        text
    }
}

/// Whether two strings hold the same.
pub fn same(a: &str, b: &str) -> (yes: bool)
    ensures
        yes == (a@ == b@),
{
    a.to_owned() == b.to_owned()
}

/// What stands behind the first `piece` in `text`, if it occurs.
pub open spec fn behind_first(text: Seq<char>, piece: Seq<char>) -> Option<Seq<char>>
    decreases text.len(),
{
    if piece.is_prefix_of(text) {
        Some(text.skip(piece.len() as int))
    } else if text.len() == 0 {
        None
    } else {
        behind_first(text.drop_first(), piece)
    }
}

/// Where no earlier occurrence is, the search may start later.
proof fn lemma_behind_later(text: Seq<char>, piece: Seq<char>, at: int)
    requires
        0 <= at <= text.len(),
        forall|i: int| 0 <= i < at ==> !piece.is_prefix_of(#[trigger] text.skip(i)),
    ensures
        behind_first(text, piece) == behind_first(text.skip(at), piece),
    decreases at,
{
    assert(text.skip(0) == text);
    if at > 0 {
        let rest = text.drop_first();
        assert(!piece.is_prefix_of(text.skip(0)));
        assert forall|i: int| 0 <= i < at - 1 implies !piece.is_prefix_of(
            #[trigger] rest.skip(i),
        ) by {
            assert(rest.skip(i) == text.skip(i + 1));
        }
        lemma_behind_later(rest, piece, at - 1);
        assert(rest.skip(at - 1) == text.skip(at));
    }
}

/// What stands behind the first `piece` in `s`, if it occurs.
pub fn after_first<'a>(s: &'a str, piece: &str) -> (rest: Option<&'a str>)
    ensures
        match rest {
            Some(rest) => behind_first(s@, piece@) == Some(rest@),
            None => behind_first(s@, piece@) is None,
        },
{
    let text = chars_of(s);
    let goal = chars_of(piece);
    match find_from(&text, 0, &goal) {
        Some(at) => {
            proof {
                lemma_behind_later(s@, piece@, at as int);
                assert(at + goal.len() <= text.len());
                assert(s@.skip(at as int).skip(piece@.len() as int) == s@.skip(
                    at + piece@.len(),
                ));
            }
            let rest = s.substring_char(at + goal.len(), text.len());
            assert(rest@ == s@.skip(at + piece@.len()));
            Some(rest)
        },
        None => {
            proof {
                let n = s@.len() as int;
                lemma_behind_later(s@, piece@, n);
                assert(!piece@.is_prefix_of(s@.skip(n)));
            }
            None
        },
    }
}

/// Whether `list` holds `s`.
pub fn holds(list: &[String], s: &str) -> (found: bool)
    ensures
        found == texts(list@).contains(s@),
{
    let target = s.to_owned();
    let mut i: usize = 0;
    while i < list.len()
        invariant
            target@ == s@,
            i <= list@.len(),
            forall|j: int| 0 <= j < i ==> (#[trigger] list@[j])@ != s@,
        decreases list@.len() - i,
    {
        if list[i] == target {
            assert(texts(list@)[i as int] == s@);
            return true;
        }
        i = i + 1;
    }
    assert forall|j: int| 0 <= j < texts(list@).len() implies texts(list@)[j] != s@ by {
        assert(list@[j]@ != s@);
    }
    false
}

} // verus!
