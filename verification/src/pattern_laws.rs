//! What holds of every pattern.

use crate::pattern::{
    broader, descending, floats, glob, lower_prefix, pattern_matches, WILDCARD,
};
use crate::text::{
    law_pieces_join, lemma_pieces_cut, lemma_pieces_plain, lemma_some_piece, pieces,
};
use crate::wildcards::reaches;
use vstd::prelude::*;

verus! {

/// A pattern matches its own text, and, with a wildcard behind, all that
/// continues it.
proof fn lemma_glob_self(t: Seq<char>, r: Seq<char>)
    ensures
        glob(pieces(t, WILDCARD), t),
        glob(pieces(t, WILDCARD).push(Seq::empty()), t + r),
    decreases t.len(),
{
    let end = Seq::<char>::empty();
    if !t.contains(WILDCARD) {
        lemma_pieces_plain(t, WILDCARD);
        let segments = seq![t].push(end);
        let s = t + r;
        assert(t == s.subrange(0, t.len() as int));
        let rest = s.skip(t.len() as int);
        assert(segments.drop_first() == seq![end]);
        assert(rest.skip(rest.len() as int) == end);
        assert(glob(seq![end], rest.skip(rest.len() as int)));
        assert(floats(seq![end], rest));
    } else {
        let k = t.index_of_first(WILDCARD)->0;
        t.index_of_first_ensures(WILDCARD);
        let a = t.take(k);
        let b = t.skip(k + 1);
        assert(t == a.push(WILDCARD) + b);
        lemma_pieces_cut(a, WILDCARD, b);
        lemma_pieces_plain(a, WILDCARD);
        lemma_glob_self(b, r);
        lemma_some_piece(b, WILDCARD);
        let tail = pieces(b, WILDCARD);
        let segments = seq![a] + tail;
        assert(segments.drop_first() == tail);
        assert(a == t.subrange(0, k));
        assert(t.skip(k).skip(1) == b);
        assert(floats(tail, t.skip(k)));
        let more = segments.push(end);
        assert(more.drop_first() == tail.push(end));
        assert(a == (t + r).subrange(0, k));
        assert((t + r).skip(k).skip(1) == b + r);
        assert(floats(tail.push(end), (t + r).skip(k)));
    }
}

/// What becomes of a trailing `,*`.
proof fn lemma_descending_pieces(u: Seq<char>)
    ensures
        descending(pieces(u.push(',').push(WILDCARD), WILDCARD)) == Some(
            pieces(u.push(':').push(WILDCARD), WILDCARD),
        ),
{
    lemma_some_piece(u, WILDCARD);
    let head = pieces(u, WILDCARD);
    let with = |c: char| u.push(c).push(WILDCARD);
    assert forall|c: char| c != WILDCARD implies pieces(#[trigger] with(c), WILDCARD)
        == head.drop_last().push(head.last().push(c)).push(Seq::empty()) by {
        lemma_pieces_trailing(u.push(c));
        assert(u.push(c).drop_last() == u);
        assert(pieces(u.push(c), WILDCARD) == head.drop_last().push(head.last().push(c)));
    }
    let before = pieces(with(','), WILDCARD);
    let after = pieces(with(':'), WILDCARD);
    let n = before.len() as int;
    assert(head.last().push(',').drop_last() == head.last());
    assert(before.update(n - 2, head.last().push(':')) == after);
}

/// The pieces of a pattern that ends in a wildcard.
proof fn lemma_pieces_trailing(p: Seq<char>)
    ensures
        pieces(p.push(WILDCARD), WILDCARD) == pieces(p, WILDCARD).push(Seq::empty()),
{
    assert(p.push(WILDCARD).drop_last() == p);
}

/// Every pattern matches its own text.
pub proof fn law_pattern_matches_itself(t: Seq<char>)
    ensures
        pattern_matches(pieces(t, WILDCARD), t),
{
    lemma_glob_self(t, Seq::empty());
}

/// A pattern without a wildcard matches its own text and nothing else.
pub proof fn law_plain_pattern_is_exact(t: Seq<char>, s: Seq<char>)
    requires
        !t.contains(WILDCARD),
    ensures
        pattern_matches(pieces(t, WILDCARD), s) <==> s == t,
{
    lemma_pieces_plain(t, WILDCARD);
}

/// A wildcard by itself matches everything.
pub proof fn law_lone_wildcard_matches_all(s: Seq<char>)
    ensures
        pattern_matches(pieces(seq![WILDCARD], WILDCARD), s),
{
    lemma_glob_self(Seq::empty(), s);
    assert(Seq::<char>::empty() + s == s);
    lemma_pieces_trailing(Seq::empty());
    assert(Seq::<char>::empty().push(WILDCARD) == seq![WILDCARD]);
}

/// A pattern that ends in a wildcard matches all that continues what stands
/// before it; a trailing `,*` also descends past the level boundary.
pub proof fn law_trailing_wildcard_reaches(p: Seq<char>, s: Seq<char>)
    requires
        reaches(p, s),
    ensures
        pattern_matches(pieces(p.push(WILDCARD), WILDCARD), s),
{
    lemma_pieces_trailing(p);
    if p.is_prefix_of(s) {
        lemma_glob_self(p, s.skip(p.len() as int));
        assert(p + s.skip(p.len() as int) == s);
    } else {
        let u = p.drop_last();
        let lower = u.push(':');
        assert(p == u.push(','));
        lemma_descending_pieces(u);
        lemma_pieces_trailing(lower);
        lemma_glob_self(lower, s.skip(lower.len() as int));
        assert(lower + s.skip(lower.len() as int) == s);
    }
}

/// Where the trailing wildcard is the only one, the pattern matches nothing
/// else.
pub proof fn law_trailing_wildcard_is_exact(p: Seq<char>, s: Seq<char>)
    requires
        !p.contains(WILDCARD),
    ensures
        pattern_matches(pieces(p.push(WILDCARD), WILDCARD), s) <==> reaches(p, s),
{
    if reaches(p, s) {
        law_trailing_wildcard_reaches(p, s);
    }
    lemma_pieces_trailing(p);
    lemma_pieces_plain(p, WILDCARD);
    let segments = pieces(p.push(WILDCARD), WILDCARD);
    assert(segments == seq![p, Seq::empty()]);
    if descending(segments) is Some {
        assert(descending(segments)->0[0] == p.drop_last().push(':'));
    }
}

/// An empty segment between two wildcards changes nothing.
proof fn lemma_empty_segment(a: Seq<Seq<char>>, b: Seq<Seq<char>>, s: Seq<char>)
    requires
        a.len() > 0,
        b.len() > 0,
    ensures
        glob(a.push(Seq::empty()) + b, s) == glob(a + b, s),
    decreases a.len(),
{
    let with = a.push(Seq::empty()) + b;
    let without = a + b;
    let rest = s.skip(a[0].len() as int);
    if a.len() == 1 {
        assert(without.drop_first() == b);
        let tail = with.drop_first();
        assert(tail == seq![Seq::<char>::empty()] + b);
        assert(tail.drop_first() == b);
        if floats(b, rest) {
            assert(rest.skip(0) == rest);
            assert(rest.skip(0).skip(0) == rest);
            assert(glob(tail, rest.skip(0)));
        }
        if floats(tail, rest) {
            let k = choose|k: int| 0 <= k <= rest.len() && glob(tail, #[trigger] rest.skip(k));
            let left = rest.skip(k).skip(0);
            let j = choose|j: int| 0 <= j <= left.len() && glob(b, #[trigger] left.skip(j));
            assert(left.skip(j) == rest.skip(k + j));
        }
    } else {
        let a1 = a.drop_first();
        assert(with.drop_first() == a1.push(Seq::empty()) + b);
        assert(without.drop_first() == a1 + b);
        assert forall|k: int| 0 <= k <= rest.len() implies glob(
            a1.push(Seq::empty()) + b,
            #[trigger] rest.skip(k),
        ) == glob(a1 + b, rest.skip(k)) by {
            lemma_empty_segment(a1, b, rest.skip(k));
        }
    }
}

/// Consecutive wildcards are equivalent to one, except behind a `,` at the end
/// of the pattern: only a single wildcard there descends past the level.
pub proof fn law_consecutive_wildcards(a: Seq<char>, b: Seq<char>, s: Seq<char>)
    requires
        !(b.len() == 0 && a.len() > 0 && a.last() == ','),
    ensures
        pattern_matches(pieces(a.push(WILDCARD).push(WILDCARD) + b, WILDCARD), s)
            <==> pattern_matches(pieces(a.push(WILDCARD) + b, WILDCARD), s),
{
    let head = pieces(a, WILDCARD);
    let tail = pieces(b, WILDCARD);
    let end = Seq::<char>::empty();
    lemma_some_piece(a, WILDCARD);
    lemma_some_piece(b, WILDCARD);
    lemma_pieces_cut(a, WILDCARD, b);
    lemma_pieces_cut(a.push(WILDCARD), WILDCARD, b);
    lemma_pieces_trailing(a);
    let one = head + tail;
    let two = head.push(end) + tail;
    lemma_empty_segment(head, tail, s);
    let m = tail.len() as int;
    if m >= 2 {
        if descending(tail) is Some {
            let lower = descending(tail)->0;
            assert(descending(one)->0 == head + lower);
            assert(descending(two)->0 == head.push(end) + lower);
            lemma_empty_segment(head, lower, s);
        }
    } else if b.len() == 0 {
        assert(tail[0] == end);
        if a.len() > 0 {
            lemma_some_piece(a.drop_last(), WILDCARD);
        }
        assert(one[one.len() - 2] == head.last());
        assert(two[two.len() - 2] == end);
        assert(head.last().len() == 0 || head.last().last() != ',');
    } else {
        lemma_some_piece(b.drop_last(), WILDCARD);
        assert(tail.last().len() > 0);
        assert(one.last() == tail.last() && two.last() == tail.last());
    }
}

/// A pattern is not broader than itself.
pub proof fn law_broader_irreflexive(a: Seq<Seq<char>>)
    requires
        a.len() > 0,
    ensures
        !broader(a, a),
{
    if lower_prefix(a) is Some {
        let lower = lower_prefix(a)->0;
        if lower.is_prefix_of(a[0]) {
            assert(lower.len() == a[0].len());
            assert(lower == a[0]);
        }
    }
}

/// Of two patterns at most one is broader than the other.
pub proof fn law_broader_asymmetric(a: Seq<Seq<char>>, b: Seq<Seq<char>>)
    requires
        a.len() > 0,
        b.len() > 0,
        broader(a, b),
    ensures
        !broader(b, a),
{
    if broader(b, a) && lower_prefix(a) is Some && lower_prefix(b) is Some {
        let lower_a = lower_prefix(a)->0;
        let lower_b = lower_prefix(b)->0;
        if lower_a.is_prefix_of(b[0]) && lower_b.is_prefix_of(a[0]) {
            assert(lower_a == b[0]);
            assert(lower_a.last() == ':');
        }
    }
}

/// What a pattern is broader than, it is broader than all that that one is
/// broader than.
pub proof fn law_broader_transitive(a: Seq<Seq<char>>, b: Seq<Seq<char>>, c: Seq<Seq<char>>)
    requires
        a.len() > 0,
        b.len() > 0,
        c.len() > 0,
        broader(a, b),
        broader(b, c),
    ensures
        broader(a, c),
{
    let x = a[0];
    let y = b[0];
    let z = c[0];
    if x.is_prefix_of(y) && y.len() > x.len() {
        if y.is_prefix_of(z) {
            assert(x == z.subrange(0, x.len() as int));
        } else {
            let lower = lower_prefix(b)->0;
            assert forall|i: int| 0 <= i < x.len() implies x[i] == z[i] by {
                assert(x[i] == y[i]);
                assert(lower[i] == z[i]);
            }
            assert(x == z.subrange(0, x.len() as int));
        }
    } else {
        let lower = lower_prefix(a)->0;
        if y.is_prefix_of(z) && z.len() > y.len() {
            assert(lower == z.subrange(0, lower.len() as int));
        } else {
            let next = lower_prefix(b)->0;
            if lower.len() == y.len() {
                assert(lower == y);
                assert(y.last() == ':');
            }
            assert forall|i: int| 0 <= i < lower.len() implies lower[i] == z[i] by {
                assert(lower[i] == y[i]);
                assert(next[i] == z[i]);
            }
            assert(lower == z.subrange(0, lower.len() as int));
        }
    }
}

/// What a pattern matches starts with what stands before its first wildcard, or
/// with what that descends to.
proof fn lemma_match_starts(segments: Seq<Seq<char>>, s: Seq<char>)
    requires
        segments.len() > 0,
        pattern_matches(segments, s),
    ensures
        segments[0].is_prefix_of(s) || (lower_prefix(segments) matches Some(lower)
            && lower.is_prefix_of(s)),
{
    if glob(segments, s) {
        if segments.len() == 1 {
            assert(segments[0] == s.subrange(0, s.len() as int));
        }
    }
}

/// A broader pattern that ends in its only wildcard matches all that the
/// narrower one matches, and its own prefix besides.
pub proof fn law_broader_covers_strictly_more(
    prefix: Seq<char>,
    narrow: Seq<Seq<char>>,
    s: Seq<char>,
)
    requires
        !prefix.contains(WILDCARD),
        narrow.len() > 0,
        broader(pieces(prefix.push(WILDCARD), WILDCARD), narrow),
    ensures
        pattern_matches(narrow, s) ==> pattern_matches(
            pieces(prefix.push(WILDCARD), WILDCARD),
            s,
        ),
        pattern_matches(pieces(prefix.push(WILDCARD), WILDCARD), prefix),
        !pattern_matches(narrow, prefix),
{
    let wide = pieces(prefix.push(WILDCARD), WILDCARD);
    lemma_pieces_trailing(prefix);
    lemma_pieces_plain(prefix, WILDCARD);
    assert(wide == seq![prefix, Seq::empty()]);
    law_trailing_wildcard_is_exact(prefix, s);
    law_trailing_wildcard_is_exact(prefix, prefix);
    assert(prefix == prefix.subrange(0, prefix.len() as int));
    let y = narrow[0];
    if lower_prefix(wide) is Some {
        assert(descending(wide)->0[0] == prefix.drop_last().push(':'));
    }
    if pattern_matches(narrow, s) {
        lemma_match_starts(narrow, s);
        if prefix.is_prefix_of(y) && y.len() > prefix.len() {
            assert forall|i: int| 0 <= i < prefix.len() implies prefix[i] == s[i] by {
                assert(prefix[i] == y[i]);
                if !y.is_prefix_of(s) {
                    let lower = lower_prefix(narrow)->0;
                    assert(lower[i] == s[i]);
                } else {
                    assert(y[i] == s[i]);
                }
            }
            assert(prefix == s.subrange(0, prefix.len() as int));
        } else {
            let below = lower_prefix(wide)->0;
            if !y.is_prefix_of(s) {
                let lower = lower_prefix(narrow)->0;
                if below.len() == y.len() {
                    assert(below == y);
                }
                assert forall|i: int| 0 <= i < below.len() implies below[i] == s[i] by {
                    assert(below[i] == y[i]);
                    assert(lower[i] == s[i]);
                }
            } else {
                assert forall|i: int| 0 <= i < below.len() implies below[i] == s[i] by {
                    assert(below[i] == y[i]);
                    assert(y[i] == s[i]);
                }
            }
            assert(below == s.subrange(0, below.len() as int));
        }
    }
    if pattern_matches(narrow, prefix) {
        lemma_match_starts(narrow, prefix);
        let below = lower_prefix(wide)->0;
        assert(y.len() == prefix.len());
        assert(below == y);
        if y.is_prefix_of(prefix) {
            assert(y == prefix);
        } else {
            assert(y.last() == ':');
        }
    }
}

/// Of two patterns that each end in their only wildcard, one that matches all
/// that the other does, and some selector besides, is the broader.
pub proof fn law_strictly_more_is_broader(x: Seq<char>, y: Seq<char>)
    requires
        !x.contains(WILDCARD),
        !y.contains(WILDCARD),
        forall|s: Seq<char>| #[trigger]
            pattern_matches(pieces(y.push(WILDCARD), WILDCARD), s) ==> pattern_matches(
                pieces(x.push(WILDCARD), WILDCARD),
                s,
            ),
        exists|s: Seq<char>|
            pattern_matches(pieces(x.push(WILDCARD), WILDCARD), s) && !#[trigger] pattern_matches(
                pieces(y.push(WILDCARD), WILDCARD),
                s,
            ),
    ensures
        broader(pieces(x.push(WILDCARD), WILDCARD), pieces(y.push(WILDCARD), WILDCARD)),
{
    let wide = pieces(x.push(WILDCARD), WILDCARD);
    let narrow = pieces(y.push(WILDCARD), WILDCARD);
    lemma_pieces_trailing(x);
    lemma_pieces_plain(x, WILDCARD);
    lemma_pieces_trailing(y);
    lemma_pieces_plain(y, WILDCARD);
    assert(wide == seq![x, Seq::empty()]);
    assert(narrow == seq![y, Seq::empty()]);
    assert(y == y.subrange(0, y.len() as int));
    law_trailing_wildcard_is_exact(y, y);
    law_trailing_wildcard_is_exact(x, y);
    if x.is_prefix_of(y) {
        if x.len() == y.len() {
            assert(x == y);
        }
    } else {
        let lower = x.drop_last().push(':');
        assert(descending(wide)->0[0] == lower);
        assert(lower.last() != x.last());
    }
}

/// The segments with the fills between them: one fill fewer than segments.
pub open spec fn interleaved(segments: Seq<Seq<char>>, fills: Seq<Seq<char>>) -> Seq<char>
    decreases segments.len(),
{
    if segments.len() <= 1 {
        segments[0]
    } else {
        segments[0] + fills[0] + interleaved(segments.drop_first(), fills.drop_first())
    }
}

/// Segments match what some fills between them make.
proof fn lemma_glob_fills(segments: Seq<Seq<char>>, s: Seq<char>)
    requires
        segments.len() > 0,
    ensures
        glob(segments, s) <==> exists|fills: Seq<Seq<char>>|
            fills.len() == segments.len() - 1 && s == #[trigger] interleaved(segments, fills),
    decreases segments.len(),
{
    let first = segments[0];
    let others = segments.drop_first();
    if segments.len() == 1 {
        let none = Seq::<Seq<char>>::empty();
        assert(interleaved(segments, none) == first);
    } else {
        if glob(segments, s) {
            let rest = s.skip(first.len() as int);
            let k = choose|k: int| 0 <= k <= rest.len() && glob(others, #[trigger] rest.skip(k));
            lemma_glob_fills(others, rest.skip(k));
            let more = choose|fills: Seq<Seq<char>>|
                fills.len() == others.len() - 1 && rest.skip(k) == #[trigger] interleaved(
                    others,
                    fills,
                );
            let fills = seq![rest.take(k)] + more;
            assert(fills.drop_first() == more);
            assert(s == first + rest.take(k) + rest.skip(k));
            assert(s == interleaved(segments, fills));
        }
        if exists|fills: Seq<Seq<char>>|
            fills.len() == segments.len() - 1 && s == #[trigger] interleaved(segments, fills) {
            let fills = choose|fills: Seq<Seq<char>>|
                fills.len() == segments.len() - 1 && s == #[trigger] interleaved(segments, fills);
            let tail = interleaved(others, fills.drop_first());
            lemma_glob_fills(others, tail);
            let rest = s.skip(first.len() as int);
            let k = fills[0].len() as int;
            assert(first == s.subrange(0, first.len() as int));
            assert(rest.skip(k) == tail);
            assert(floats(others, rest));
        }
    }
}

/// Each wildcard stands for any text: a pattern matches what its text makes when
/// some text is put in place of each wildcard; and a trailing `,*` may also be
/// read as `:*`.
pub proof fn law_wildcards_stand_for_any_text(t: Seq<char>, s: Seq<char>)
    ensures
        pattern_matches(pieces(t, WILDCARD), s) <==> {
            let segments = pieces(t, WILDCARD);
            let n = t.len() as int;
            let lower = pieces(t.take(n - 2).push(':').push(WILDCARD), WILDCARD);
            ||| exists|fills: Seq<Seq<char>>|
                fills.len() == segments.len() - 1 && s == #[trigger] interleaved(segments, fills)
            ||| n >= 2 && t[n - 1] == WILDCARD && t[n - 2] == ',' && exists|
                fills: Seq<Seq<char>>,
            |
                fills.len() == lower.len() - 1 && s == #[trigger] interleaved(lower, fills)
        },
{
    let segments = pieces(t, WILDCARD);
    let n = t.len() as int;
    let u = t.take(n - 2);
    lemma_some_piece(t, WILDCARD);
    lemma_glob_fills(segments, s);
    if n >= 2 && t[n - 1] == WILDCARD && t[n - 2] == ',' {
        let lower = pieces(u.push(':').push(WILDCARD), WILDCARD);
        assert(t == u.push(',').push(WILDCARD));
        lemma_descending_pieces(u);
        lemma_some_piece(u.push(':').push(WILDCARD), WILDCARD);
        lemma_glob_fills(lower, s);
    } else {
        lemma_not_descending(t);
    }
}

/// A pattern that does not end in `,*` does not descend.
proof fn lemma_not_descending(t: Seq<char>)
    requires
        !(t.len() >= 2 && t[t.len() - 1] == WILDCARD && t[t.len() - 2] == ','),
    ensures
        descending(pieces(t, WILDCARD)) is None,
{
    let segments = pieces(t, WILDCARD);
    let n = segments.len() as int;
    if t.len() > 0 {
        let init = t.drop_last();
        lemma_some_piece(init, WILDCARD);
        if t.last() == WILDCARD {
            assert(segments[n - 2] == pieces(init, WILDCARD).last());
            if init.len() > 0 {
                lemma_some_piece(init.drop_last(), WILDCARD);
            }
        } else {
            assert(segments[n - 1].len() > 0);
        }
    }
}

/// One pattern is broader than another by what the two write before their first
/// wildcards: the other writes the same and more; or the first is nothing but that,
/// a `,` and a wildcard, and the other writes the same with a `:` in place of the
/// `,`.
pub proof fn law_broader_by_what_is_written(
    x: Seq<char>,
    x_rest: Seq<char>,
    y: Seq<char>,
    y_rest: Seq<char>,
)
    requires
        !x.contains(WILDCARD) && !y.contains(WILDCARD),
        x_rest.len() > 0 ==> x_rest[0] == WILDCARD,
        y_rest.len() > 0 ==> y_rest[0] == WILDCARD,
    ensures
        broader(pieces(x + x_rest, WILDCARD), pieces(y + y_rest, WILDCARD)) <==> {
            ||| x.is_prefix_of(y) && x != y
            ||| x_rest == seq![WILDCARD] && x.len() > 0 && x.last() == ','
                && x.drop_last().push(':').is_prefix_of(y)
        },
{
    let wide = pieces(x + x_rest, WILDCARD);
    let narrow = pieces(y + y_rest, WILDCARD);
    lemma_written_first(x, x_rest);
    lemma_written_first(y, y_rest);
    if x.is_prefix_of(y) && x.len() == y.len() {
        assert(x == y);
    }
    if x_rest == seq![WILDCARD] && x.len() > 0 && x.last() == ',' {
        assert(x + x_rest == x.push(WILDCARD));
        lemma_pieces_trailing(x);
        lemma_pieces_plain(x, WILDCARD);
        assert(wide == seq![x, Seq::empty()]);
        let lower = x.drop_last().push(':');
        assert(descending(wide)->0[0] == lower);
        assert(lower.last() != x.last());
    } else if lower_prefix(wide) is Some {
        assert(wide.len() == 2);
        let rest = x_rest.skip(1);
        assert(x + x_rest == x.push(WILDCARD) + rest);
        lemma_pieces_cut(x, WILDCARD, rest);
        lemma_pieces_plain(x, WILDCARD);
        lemma_some_piece(rest, WILDCARD);
        assert(pieces(rest, WILDCARD) == wide.skip(1));
        law_pieces_join(rest, WILDCARD);
        assert(pieces(rest, WILDCARD)[0] == wide[1]);
        assert(rest.len() == 0);
        assert(x_rest == seq![WILDCARD]);
    }
}

/// What stands before the first wildcard is the first piece.
proof fn lemma_written_first(x: Seq<char>, rest: Seq<char>)
    requires
        !x.contains(WILDCARD),
        rest.len() > 0 ==> rest[0] == WILDCARD,
    ensures
        pieces(x + rest, WILDCARD).len() > 0,
        pieces(x + rest, WILDCARD)[0] == x,
        pieces(x + rest, WILDCARD).len() == 1 <==> rest.len() == 0,
{
    lemma_pieces_plain(x, WILDCARD);
    if rest.len() == 0 {
        assert(x + rest == x);
    } else {
        assert(x + rest == x.push(WILDCARD) + rest.skip(1));
        lemma_pieces_cut(x, WILDCARD, rest.skip(1));
        lemma_some_piece(rest.skip(1), WILDCARD);
    }
}

} // verus!
