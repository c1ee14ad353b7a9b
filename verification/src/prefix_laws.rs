//! What holds of the prefixes of every selector: they are what is left of it when
//! it is parted at its separators and put together again.

use crate::prefixes::{
    colon_cuts, comma_cuts, cut_at, law_prefixes_are_the_cuts, lies_in, names_level, one_colon,
    prefixes,
};
use crate::text::{
    joined, law_pieces_join, lemma_pieces_cut, lemma_pieces_plain, lemma_some_piece, pieces,
};
use crate::text_laws::{lemma_cut_joins, lemma_first_piece, lemma_joins_cut};
use vstd::prelude::*;

verus! {

/// A text with one `:` has two pieces between its colons.
pub proof fn lemma_one_colon(s: Seq<char>)
    ensures
        one_colon(s) <==> pieces(s, ':').len() == 2,
{
    if one_colon(s) {
        let c = choose|c: int|
            0 <= c < s.len() && #[trigger] s[c] == ':' && forall|j: int|
                0 <= j < s.len() && j != c ==> s[j] != ':';
        let a = s.take(c);
        let b = s.skip(c + 1);
        assert(s == a.push(':') + b);
        assert(!b.contains(':')) by {
            if b.contains(':') {
                let i = choose|i: int| 0 <= i < b.len() && b[i] == ':';
                assert(s[c + 1 + i] == ':');
            }
        }
        lemma_pieces_cut(a, ':', b);
        lemma_pieces_plain(a, ':');
        lemma_pieces_plain(b, ':');
    }
    if pieces(s, ':').len() == 2 {
        lemma_first_piece(s, ':');
        law_pieces_join(s, ':');
        let c = pieces(s, ':')[0].len() as int;
        let b = s.skip(c + 1);
        lemma_first_piece(b, ':');
        assert(pieces(b, ':').len() == 1);
        assert(s[c] == ':');
        assert forall|j: int| 0 <= j < s.len() && j != c implies s[j] != ':' by {
            if j < c {
                assert(pieces(s, ':')[0][j] == s[j]);
            } else {
                assert(b[j - c - 1] == s[j]);
            }
        }
    }
}

/// Where a text lies in its file path: what stands there is the suite, a `:`, and
/// a beginning of the second piece.
proof fn lemma_in_file_path(s: Seq<char>, k: int)
    requires
        0 <= k <= s.len(),
        one_colon(s.take(k)),
    ensures
        ({
            let parts = pieces(s, ':');
            let c = parts[0].len() as int;
            &&& parts.len() >= 2
            &&& c + 1 <= k <= c + 1 + parts[1].len() <= s.len()
            &&& s.take(k) == parts[0].push(':') + parts[1].take(k - c - 1)
            &&& k < c + 1 + parts[1].len() ==> s[k] == parts[1][k - c - 1] && s[k] != ':'
            &&& k == c + 1 + parts[1].len() && k < s.len() ==> s[k] == ':'
        }),
{
    let head = s.take(k);
    let parts = pieces(s, ':');
    let d = choose|d: int|
        0 <= d < head.len() && #[trigger] head[d] == ':' && forall|j: int|
            0 <= j < head.len() && j != d ==> head[j] != ':';
    lemma_first_piece(s, ':');
    let c = parts[0].len() as int;
    assert(s[d] == ':');
    if parts.len() == 1 {
        assert(parts[0][d] == ':');
    }
    if d < c {
        assert(parts[0][d] == ':');
    }
    if c < d {
        assert(head[c] == ':');
    }
    let b = s.skip(c + 1);
    lemma_first_piece(b, ':');
    assert(parts[1] == parts.skip(1)[0]);
    let second = parts[1];
    if k > c + 1 + second.len() {
        if pieces(b, ':').len() > 1 {
            assert(b[second.len() as int] == head[c + 1 + second.len()]);
        }
    }
    if k < c + 1 + second.len() {
        assert(second[k - c - 1] == b[k - c - 1]);
        assert(second.contains(second[k - c - 1]));
    }
    assert(head == parts[0].push(':') + second.take(k - c - 1));
}

/// The suite, a `:` and a beginning of the second piece end in the file path.
proof fn lemma_file_path_in(s: Seq<char>, j: int) -> (k: int)
    requires
        pieces(s, ':').len() >= 2,
        0 <= j <= pieces(s, ':')[1].len(),
    ensures
        k == pieces(s, ':')[0].len() + 1 + j <= s.len(),
        s.take(k) == pieces(s, ':')[0].push(':') + pieces(s, ':')[1].take(j),
        one_colon(s.take(k)),
        j < pieces(s, ':')[1].len() ==> k < s.len() && s[k] == pieces(s, ':')[1][j],
        j == pieces(s, ':')[1].len() ==> k == s.len() || s[k] == ':',
{
    let parts = pieces(s, ':');
    lemma_first_piece(s, ':');
    let c = parts[0].len() as int;
    let b = s.skip(c + 1);
    lemma_first_piece(b, ':');
    assert(parts[1] == parts.skip(1)[0]);
    let k = c + 1 + j;
    let head = s.take(k);
    assert(head[c] == ':');
    assert forall|i: int| 0 <= i < head.len() && i != c implies head[i] != ':' by {
        if i < c {
            assert(parts[0][i] == s[i]);
        } else {
            assert(parts[1][i - c - 1] == b[i - c - 1]);
            assert(parts[1].contains(parts[1][i - c - 1]));
        }
    }
    if j < parts[1].len() {
        assert(parts[1][j] == b[j]);
    } else if k < s.len() {
        assert(b[j] == s[k]);
    }
    assert(head == parts[0].push(':') + parts[1].take(j));
    k
}

/// The prefixes of a selector are its pieces between the colons, up to some but
/// not all of them, with a `:` behind; and, where there is a file path, the suite,
/// a `:` and the pieces of the path between the commas, up to some but not all of
/// them, with a `,` or a `:` behind.
pub proof fn law_prefixes_are_pieces_joined(s: Seq<char>, p: Seq<char>)
    ensures
        prefixes(s).contains(p) <==> {
            let parts = pieces(s, ':');
            let path = pieces(parts[1], ',');
            ||| exists|i: int|
                1 <= i < parts.len() && p == (#[trigger] joined(parts.take(i), ':')).push(':')
            ||| parts.len() >= 2 && exists|i: int|
                1 <= i < path.len() && {
                    let level = parts[0].push(':') + #[trigger] joined(path.take(i), ',');
                    p == level.push(',') || p == level.push(':')
                }
        },
{
    let parts = pieces(s, ':');
    let path = pieces(parts[1], ',');
    law_prefixes_are_the_cuts(s, p);
    if prefixes(s).contains(p) {
        let k = choose|k: int| 0 <= k < s.len() && #[trigger] cut_at(s, k, p);
        assert(s.take(k + 1) == s.take(k).push(s[k]));
        if s[k] == ':' {
            let i = lemma_cut_joins(s, ':', k);
            assert(p == joined(parts.take(i), ':').push(':'));
        } else {
            lemma_in_file_path(s, k);
            let j = k - parts[0].len() - 1;
            let i = lemma_cut_joins(parts[1], ',', j);
            let level = parts[0].push(':') + joined(path.take(i), ',');
            assert(p == level.push(',') || p == level.push(':'));
        }
    }
    if exists|i: int|
        1 <= i < parts.len() && p == (#[trigger] joined(parts.take(i), ':')).push(':') {
        let i = choose|i: int|
            1 <= i < parts.len() && p == (#[trigger] joined(parts.take(i), ':')).push(':');
        let k = lemma_joins_cut(s, ':', i);
        assert(s.take(k + 1) == s.take(k).push(s[k]));
        assert(cut_at(s, k, p));
    }
    if parts.len() >= 2 && exists|i: int|
        1 <= i < path.len() && {
            let level = parts[0].push(':') + #[trigger] joined(path.take(i), ',');
            p == level.push(',') || p == level.push(':')
        } {
        let i = choose|i: int|
            1 <= i < path.len() && {
                let level = parts[0].push(':') + #[trigger] joined(path.take(i), ',');
                p == level.push(',') || p == level.push(':')
            };
        let j = lemma_joins_cut(parts[1], ',', i);
        let k = lemma_file_path_in(s, j);
        assert(s.take(k + 1) == s.take(k).push(s[k]));
        assert(cut_at(s, k, p));
    }
}

/// A selector lies in what its pieces between the colons make, up to some or all
/// of them, with a `:` behind or not; and, where there is a file path, in what the
/// suite, a `:` and the pieces of the path between the commas make, up to some or
/// all of them, with a `,` or a `:` behind or neither.
pub proof fn law_levels_are_pieces_joined(s: Seq<char>, p: Seq<char>)
    ensures
        lies_in(s, p) <==> {
            let parts = pieces(s, ':');
            let path = pieces(parts[1], ',');
            ||| exists|i: int|
                1 <= i <= parts.len() && {
                    let level = #[trigger] joined(parts.take(i), ':');
                    p == level || p == level.push(':')
                }
            ||| parts.len() >= 2 && exists|i: int|
                1 <= i <= path.len() && {
                    let level = parts[0].push(':') + #[trigger] joined(path.take(i), ',');
                    p == level || p == level.push(',') || p == level.push(':')
                }
        },
{
    let parts = pieces(s, ':');
    let path = pieces(parts[1], ',');
    law_pieces_join(s, ':');
    law_pieces_join(parts[1], ',');
    lemma_first_piece(s, ':');
    lemma_first_piece(parts[1], ',');
    lemma_some_piece(s, ':');
    lemma_some_piece(parts[1], ',');
    assert(parts.take(parts.len() as int) == parts);
    assert(path.take(path.len() as int) == path);
    assert(s.take(s.len() as int) == s);
    if lies_in(s, p) {
        let k = choose|k: int| 0 <= k <= s.len() && #[trigger] names_level(s, k, p);
        if (k == s.len() || s[k] == ':') && (p == s.take(k) || p == s.take(k).push(':')) {
            let i = if k == s.len() {
                parts.len() as int
            } else {
                lemma_cut_joins(s, ':', k)
            };
            assert(s.take(k) == joined(parts.take(i), ':'));
        } else {
            lemma_in_file_path(s, k);
            let j = k - parts[0].len() - 1;
            let i = if j == parts[1].len() {
                assert(parts[1].take(j) == parts[1]);
                path.len() as int
            } else {
                lemma_cut_joins(parts[1], ',', j)
            };
            assert(s.take(k) == parts[0].push(':') + joined(path.take(i), ','));
        }
    }
    if exists|i: int|
        1 <= i <= parts.len() && {
            let level = #[trigger] joined(parts.take(i), ':');
            p == level || p == level.push(':')
        } {
        let i = choose|i: int|
            1 <= i <= parts.len() && {
                let level = #[trigger] joined(parts.take(i), ':');
                p == level || p == level.push(':')
            };
        let k = if i == parts.len() {
            s.len() as int
        } else {
            lemma_joins_cut(s, ':', i)
        };
        assert(names_level(s, k, p));
    }
    if parts.len() >= 2 && exists|i: int|
        1 <= i <= path.len() && {
            let level = parts[0].push(':') + #[trigger] joined(path.take(i), ',');
            p == level || p == level.push(',') || p == level.push(':')
        } {
        let i = choose|i: int|
            1 <= i <= path.len() && {
                let level = parts[0].push(':') + #[trigger] joined(path.take(i), ',');
                p == level || p == level.push(',') || p == level.push(':')
            };
        let j = if i == path.len() {
            parts[1].len() as int
        } else {
            lemma_joins_cut(parts[1], ',', i)
        };
        assert(parts[1].take(j) == joined(path.take(i), ','));
        let k = lemma_file_path_in(s, j);
        assert(names_level(s, k, p));
    }
}

/// The prefixes that end at a `:`, in terms of the pieces.
proof fn lemma_colon_order(s: Seq<char>, n: int, i: int)
    requires
        0 <= n <= s.len(),
    ensures
        colon_cuts(s, n).len() == pieces(s.take(n), ':').len() - 1,
        0 <= i < colon_cuts(s, n).len() ==> colon_cuts(s, n)[i] == joined(
            pieces(s.take(n), ':').take(pieces(s.take(n), ':').len() - 1 - i),
            ':',
        ).push(':'),
    decreases n,
{
    if n > 0 {
        let parts = pieces(s.take(n), ':');
        let before = pieces(s.take(n - 1), ':');
        assert(s.take(n).drop_last() == s.take(n - 1));
        lemma_some_piece(s.take(n - 1), ':');
        if s[n - 1] == ':' {
            lemma_colon_order(s, n - 1, i - 1);
            if i == 0 {
                law_pieces_join(s.take(n - 1), ':');
                assert(parts.take(parts.len() - 1) == before);
                assert(s.take(n) == s.take(n - 1).push(':'));
            } else if 0 < i < colon_cuts(s, n).len() {
                assert(parts.take(parts.len() - 1 - i) == before.take(before.len() - 1 - (i - 1)));
            }
        } else {
            lemma_colon_order(s, n - 1, i);
            if 0 <= i < colon_cuts(s, n).len() {
                assert(parts.take(parts.len() - 1 - i) == before.take(before.len() - 1 - i));
            }
        }
    }
}

/// The prefixes that end within the file path, in terms of the pieces.
proof fn lemma_comma_order(s: Seq<char>, n: int, i: int)
    requires
        0 <= n <= s.len(),
    ensures
        ({
            let parts = pieces(s.take(n), ':');
            let path = pieces(parts[1], ',');
            let cuts = comma_cuts(s, n);
            &&& parts.len() < 2 ==> cuts.len() == 0
            &&& parts.len() >= 2 ==> cuts.len() == 2 * (path.len() - 1)
            &&& parts.len() >= 2 && 0 <= i < path.len() - 1 ==> {
                let level = parts[0].push(':') + joined(path.take(path.len() - 1 - i), ',');
                cuts[2 * i] == level.push(',') && cuts[2 * i + 1] == level.push(':')
            }
        }),
    decreases n,
{
    if n > 0 {
        let c = s[n - 1];
        let parts = pieces(s.take(n), ':');
        let before = pieces(s.take(n - 1), ':');
        let path = pieces(parts[1], ',');
        assert(s.take(n).drop_last() == s.take(n - 1));
        assert(s.take(n) == s.take(n - 1).push(c));
        lemma_some_piece(s.take(n - 1), ':');
        lemma_one_colon(s.take(n - 1));
        lemma_comma_order(s, n - 1, i);
        if c == ':' {
            if parts.len() > 2 {
                assert(parts[0] == before[0] && parts[1] == before[1]);
            }
        } else if parts.len() == 2 {
            let old = pieces(before[1], ',');
            lemma_some_piece(before[1], ',');
            assert(parts[0] == before[0]);
            assert(parts[1] == before[1].push(c));
            assert(parts[1].drop_last() == before[1]);
            if c == ',' {
                lemma_comma_order(s, n - 1, i - 1);
                law_pieces_join(s.take(n - 1), ':');
                law_pieces_join(before[1], ',');
                assert(before.drop_last() == seq![before[0]]);
                assert(joined(before.drop_last(), ':') == before[0]);
                assert(s.take(n - 1) == before[0].push(':') + before[1]);
                if i == 0 {
                    assert(path.take(path.len() - 1) == old);
                } else if 0 < i < path.len() - 1 {
                    assert(path.take(path.len() - 1 - i) == old.take(old.len() - 1 - (i - 1)));
                    assert(comma_cuts(s, n)[2 * i] == comma_cuts(s, n - 1)[2 * (i - 1)]);
                    assert(comma_cuts(s, n)[2 * i + 1] == comma_cuts(s, n - 1)[2 * (i - 1) + 1]);
                }
            } else if 0 <= i < path.len() - 1 {
                assert(path.take(path.len() - 1 - i) == old.take(old.len() - 1 - i));
            }
        } else if parts.len() > 2 {
            assert(parts[0] == before[0] && parts[1] == before[1]);
        }
    }
}

/// The prefixes of a selector in their order: first those made of its pieces
/// between the colons, one piece fewer each time; then those made of the pieces of
/// its file path between the commas, one piece fewer each time, with a `,` and then
/// with a `:` behind.
pub proof fn law_prefixes_in_their_order(s: Seq<char>, i: int)
    ensures
        ({
            let parts = pieces(s, ':');
            let path = pieces(parts[1], ',');
            let n = parts.len() - 1;
            &&& parts.len() == 1 ==> prefixes(s).len() == 0
            &&& parts.len() >= 2 ==> prefixes(s).len() == n + 2 * (path.len() - 1)
            &&& 0 <= i < n ==> prefixes(s)[i] == joined(parts.take(n - i), ':').push(':')
            &&& parts.len() >= 2 && 0 <= i < path.len() - 1 ==> {
                let level = parts[0].push(':') + joined(path.take(path.len() - 1 - i), ',');
                prefixes(s)[n + 2 * i] == level.push(',') && prefixes(s)[n + 2 * i + 1]
                    == level.push(':')
            }
        }),
{
    assert(s.take(s.len() as int) == s);
    lemma_colon_order(s, s.len() as int, i);
    lemma_comma_order(s, s.len() as int, i);
    lemma_some_piece(s, ':');
}

} // verus!
