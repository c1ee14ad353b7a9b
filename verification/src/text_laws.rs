//! What holds of every text.

use crate::order::{diverges_at, precedes};
use crate::text::{
    behind_first, decimal, end_trimmed, is_space, joined, law_pieces_join, lemma_pieces_cut,
    lemma_pieces_plain, lemma_some_piece, lower, pieces, start_trimmed, trimmed,
};
use vstd::prelude::*;

verus! {

/// Joining two lists of parts is joining each, with a separator between.
pub proof fn lemma_joined_split(parts: Seq<Seq<char>>, at: char, i: int)
    requires
        0 < i < parts.len(),
    ensures
        joined(parts, at) == joined(parts.take(i), at).push(at) + joined(parts.skip(i), at),
    decreases parts.len(),
{
    let init = parts.drop_last();
    let tail = parts.skip(i);
    if i == parts.len() - 1 {
        assert(parts.take(i) == init);
        assert(tail == seq![parts.last()]);
    } else {
        lemma_joined_split(init, at, i);
        assert(init.take(i) == parts.take(i));
        assert(init.skip(i) == tail.drop_last());
        assert(tail.last() == parts.last());
        let head = joined(parts.take(i), at).push(at);
        let middle = joined(tail.drop_last(), at);
        assert((head + middle).push(at) + parts.last() == head + (middle.push(at) + parts.last()));
    }
}

/// Cutting undoes joining, where no part holds the separator.
pub proof fn law_joined_parts_come_back(parts: Seq<Seq<char>>, at: char)
    requires
        parts.len() > 0,
        forall|i: int| 0 <= i < parts.len() ==> !(#[trigger] parts[i]).contains(at),
    ensures
        pieces(joined(parts, at), at) == parts,
    decreases parts.len(),
{
    let last = parts.last();
    assert(last == parts[parts.len() - 1]);
    lemma_pieces_plain(last, at);
    if parts.len() == 1 {
        assert(parts == seq![last]);
    } else {
        let init = parts.drop_last();
        assert forall|i: int| 0 <= i < init.len() implies !(#[trigger] init[i]).contains(at) by {
            assert(init[i] == parts[i]);
        }
        law_joined_parts_come_back(init, at);
        lemma_pieces_cut(joined(init, at), at, last);
        assert(init + seq![last] == parts);
    }
}

/// What stands before a separator is the pieces before it, joined.
pub proof fn lemma_cut_joins(s: Seq<char>, at: char, k: int) -> (i: int)
    requires
        0 <= k < s.len(),
        s[k] == at,
    ensures
        1 <= i < pieces(s, at).len(),
        s.take(k) == joined(pieces(s, at).take(i), at),
{
    let a = s.take(k);
    let b = s.skip(k + 1);
    assert(s == a.push(at) + b);
    lemma_pieces_cut(a, at, b);
    lemma_some_piece(a, at);
    lemma_some_piece(b, at);
    law_pieces_join(a, at);
    let i = pieces(a, at).len() as int;
    assert(pieces(s, at).take(i) == pieces(a, at));
    i
}

/// The first pieces, joined, stand before a separator.
pub proof fn lemma_joins_cut(s: Seq<char>, at: char, i: int) -> (k: int)
    requires
        1 <= i < pieces(s, at).len(),
    ensures
        0 <= k < s.len(),
        s[k] == at,
        s.take(k) == joined(pieces(s, at).take(i), at),
{
    law_pieces_join(s, at);
    lemma_joined_split(pieces(s, at), at, i);
    let head = joined(pieces(s, at).take(i), at);
    let k = head.len() as int;
    assert(s.take(k) == head);
    k
}

/// The first piece ends before the first separator.
pub proof fn lemma_first_piece(s: Seq<char>, at: char)
    ensures
        ({
            let first = pieces(s, at)[0];
            &&& first.is_prefix_of(s)
            &&& !first.contains(at)
            &&& pieces(s, at).len() == 1 ==> first == s
            &&& pieces(s, at).len() > 1 ==> {
                &&& first.len() < s.len()
                &&& s[first.len() as int] == at
                &&& pieces(s, at).skip(1) == pieces(s.skip(first.len() as int + 1), at)
            }
        }),
{
    lemma_some_piece(s, at);
    if !s.contains(at) {
        lemma_pieces_plain(s, at);
        assert(s == s.subrange(0, s.len() as int));
    } else {
        s.index_of_first_ensures(at);
        let k = s.index_of_first(at)->0;
        let a = s.take(k);
        let b = s.skip(k + 1);
        assert(s == a.push(at) + b);
        assert(!a.contains(at)) by {
            if a.contains(at) {
                let i = choose|i: int| 0 <= i < a.len() && a[i] == at;
                assert(s[i] == at);
            }
        }
        lemma_pieces_cut(a, at, b);
        lemma_pieces_plain(a, at);
        lemma_some_piece(b, at);
        assert(a == s.subrange(0, k));
        assert((seq![a] + pieces(b, at)).skip(1) == pieces(b, at));
    }
}

/// Trimming an end takes off white space, all of it, and nothing else.
pub proof fn law_end_trimmed(s: Seq<char>)
    ensures
        end_trimmed(s).is_prefix_of(s),
        forall|i: int| end_trimmed(s).len() <= i < s.len() ==> is_space(#[trigger] s[i]),
        end_trimmed(s).len() > 0 ==> !is_space(end_trimmed(s).last()),
    decreases s.len(),
{
    if s.len() > 0 && is_space(s.last()) {
        let init = s.drop_last();
        law_end_trimmed(init);
        assert(end_trimmed(s) == s.subrange(0, end_trimmed(s).len() as int));
        assert forall|i: int| end_trimmed(s).len() <= i < s.len() implies is_space(
            #[trigger] s[i],
        ) by {
            if i < init.len() {
                assert(init[i] == s[i]);
            }
        }
    } else {
        assert(s == s.subrange(0, s.len() as int));
    }
}

/// Trimming a start takes off white space, all of it, and nothing else.
pub proof fn law_start_trimmed(s: Seq<char>)
    ensures
        start_trimmed(s).is_suffix_of(s),
        forall|i: int| 0 <= i < s.len() - start_trimmed(s).len() ==> is_space(#[trigger] s[i]),
        start_trimmed(s).len() > 0 ==> !is_space(start_trimmed(s).first()),
    decreases s.len(),
{
    if s.len() > 0 && is_space(s.first()) {
        let rest = s.drop_first();
        law_start_trimmed(rest);
        let kept = start_trimmed(s);
        assert(kept == s.subrange(s.len() - kept.len(), s.len() as int));
        assert forall|i: int| 0 <= i < s.len() - kept.len() implies is_space(#[trigger] s[i]) by {
            if i > 0 {
                assert(rest[i - 1] == s[i]);
            }
        }
    } else {
        assert(s == s.subrange(0, s.len() as int));
    }
}

/// A text is what trimming leaves, with white space before and behind.
pub proof fn law_trimmed(s: Seq<char>)
    ensures
        exists|a: int, b: int|
            #![trigger s.subrange(a, b)]
            0 <= a <= b <= s.len() && trimmed(s) == s.subrange(a, b) && (forall|i: int|
                0 <= i < a || b <= i < s.len() ==> is_space(#[trigger] s[i])),
        trimmed(s).len() > 0 ==> !is_space(trimmed(s).first()) && !is_space(trimmed(s).last()),
{
    let t = end_trimmed(s);
    law_end_trimmed(s);
    law_start_trimmed(t);
    let b = t.len() as int;
    let a = b - trimmed(s).len();
    assert(trimmed(s) == s.subrange(a, b));
    assert forall|i: int| 0 <= i < a || b <= i < s.len() implies is_space(#[trigger] s[i]) by {
        if i < a {
            assert(t[i] == s[i]);
        }
    }
    if trimmed(s).len() > 0 {
        assert(trimmed(s).last() == t.last());
    }
}

/// The letters of ASCII are lowered, and nothing else.
pub proof fn law_lower(c: char)
    ensures
        'A' <= c <= 'Z' ==> lower(c) as int == c as int + ('a' as int - 'A' as int),
        !('A' <= c <= 'Z') ==> lower(c) == c,
{
}

/// A number is ten times what its digits but the last write, and the last.
pub proof fn law_decimal(n: nat)
    ensures
        decimal(n).last() as int == '0' as int + n % 10,
        n >= 10 ==> decimal(n).drop_last() == decimal(n / 10),
        n < 10 ==> decimal(n).len() == 1,
{
    if n >= 10 {
        assert(decimal(n).drop_last() == decimal(n / 10));
    }
}

/// What stands behind the first occurrence stands behind an occurrence, and there
/// is none earlier; without an occurrence there is nothing.
pub proof fn law_behind_first(text: Seq<char>, piece: Seq<char>)
    ensures
        match behind_first(text, piece) {
            Some(rest) => exists|k: int|
                0 <= k <= text.len() && piece.is_prefix_of(#[trigger] text.skip(k)) && rest
                    == text.skip(k).skip(piece.len() as int) && forall|i: int|
                    0 <= i < k ==> !piece.is_prefix_of(#[trigger] text.skip(i)),
            None => forall|i: int|
                0 <= i <= text.len() ==> !piece.is_prefix_of(#[trigger] text.skip(i)),
        },
    decreases text.len(),
{
    assert(text.skip(0) == text);
    if !piece.is_prefix_of(text) {
        if text.len() == 0 {
            assert forall|i: int| 0 <= i <= text.len() implies !piece.is_prefix_of(
                #[trigger] text.skip(i),
            ) by {}
        } else {
            let tail = text.drop_first();
            law_behind_first(tail, piece);
            assert forall|i: int| 1 <= i <= text.len() implies #[trigger] text.skip(i)
                == tail.skip(i - 1) by {}
            if behind_first(tail, piece) is Some {
                let rest = behind_first(tail, piece)->0;
                let k = choose|k: int|
                    0 <= k <= tail.len() && piece.is_prefix_of(#[trigger] tail.skip(k)) && rest
                        == tail.skip(k).skip(piece.len() as int) && forall|i: int|
                        0 <= i < k ==> !piece.is_prefix_of(#[trigger] tail.skip(i));
                assert(text.skip(k + 1) == tail.skip(k));
            }
        }
    }
}

/// The first difference decides the order of two strings.
pub proof fn law_first_difference_decides(
    a: Seq<char>,
    x: char,
    b: Seq<char>,
    y: char,
    c: Seq<char>,
)
    requires
        x < y,
    ensures
        precedes(a.push(x) + b, a.push(y) + c),
{
    let s = a.push(x) + b;
    let t = a.push(y) + c;
    let k = a.len() as int;
    assert(s.take(k) == a && t.take(k) == a);
    assert(diverges_at(s, t, k));
}

/// A string comes before all that continue it.
pub proof fn law_beginning_comes_first(a: Seq<char>, b: Seq<char>)
    requires
        b.len() > 0,
    ensures
        precedes(a, a + b),
{
    let k = a.len() as int;
    assert(a.take(k) == a && (a + b).take(k) == a);
    assert(diverges_at(a, a + b, k));
}

} // verus!
