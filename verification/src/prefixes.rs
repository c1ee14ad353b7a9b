//! The prefixes at which a selector can be cut into a wildcard.
//!
//! A selector is `suite:file,path:test,path:case=params`, so the boundaries
//! worth cutting at are the `:` separators and the `,` separators within the
//! file path, which is what stands between the first `:` and the second.

use crate::order::ascending;
use crate::set::StringSet;
use crate::text::{chars_of, texts};
use vstd::prelude::*;

verus! {

/// Whether exactly one `:` occurs in `s`, so that `s` ends within a file path.
pub open spec fn one_colon(s: Seq<char>) -> bool {
    exists|c: int|
        0 <= c < s.len() && #[trigger] s[c] == ':' && forall|j: int|
            0 <= j < s.len() && j != c ==> s[j] != ':'
}

/// The beginnings of `s` that end in one of its first `n` characters, and that
/// one a `:`, longest first.
pub open spec fn colon_cuts(s: Seq<char>, n: int) -> Seq<Seq<char>>
    decreases n,
{
    if n <= 0 {
        Seq::empty()
    } else if s[n - 1] == ':' {
        seq![s.take(n)] + colon_cuts(s, n - 1)
    } else {
        colon_cuts(s, n - 1)
    }
}

/// The beginnings of `s` that end in one of its first `n` characters, and that
/// one a `,` of the file path, longest first, each followed by the same with
/// the `,` made a `:`.
pub open spec fn comma_cuts(s: Seq<char>, n: int) -> Seq<Seq<char>>
    decreases n,
{
    if n <= 0 {
        Seq::empty()
    } else if s[n - 1] == ',' && one_colon(s.take(n - 1)) {
        seq![s.take(n), s.take(n - 1).push(':')] + comma_cuts(s, n - 1)
    } else {
        comma_cuts(s, n - 1)
    }
}

/// The candidate wildcard prefixes for the selector `s`.
pub open spec fn prefixes(s: Seq<char>) -> Seq<Seq<char>> {
    colon_cuts(s, s.len() as int) + comma_cuts(s, s.len() as int)
}

/// Whether `p` names one of the levels that `s` lies in: `s` up to a `:`, up to
/// a `,` of its file path, or all of it, with or without a separator behind.
pub open spec fn lies_in(s: Seq<char>, p: Seq<char>) -> bool {
    exists|k: int| 0 <= k <= s.len() && #[trigger] names_level(s, k, p)
}

/// Whether a level of `s` ends before index `k`, and `p` is its name, with or
/// without a separator behind.
pub open spec fn names_level(s: Seq<char>, k: int, p: Seq<char>) -> bool {
    ||| (k == s.len() || s[k] == ':') && (p == s.take(k) || p == s.take(k).push(':'))
    ||| (k == s.len() || s[k] == ':' || s[k] == ',') && one_colon(s.take(k)) && (p == s.take(k)
        || p == s.take(k).push(',') || p == s.take(k).push(':'))
}

/// Whether `p` is what is left of `s` when it is cut at index `k`: the level
/// that ends there, with its separator; a level of the file path also with a
/// `:` in place of its `,`.
pub open spec fn cut_at(s: Seq<char>, k: int, p: Seq<char>) -> bool {
    ||| s[k] == ':' && p == s.take(k + 1)
    ||| s[k] == ',' && one_colon(s.take(k)) && (p == s.take(k + 1) || p == s.take(k).push(':'))
}

/// The candidate prefixes of a selector are its cuts, and nothing else.
pub proof fn law_prefixes_are_the_cuts(s: Seq<char>, p: Seq<char>)
    ensures
        prefixes(s).contains(p) <==> exists|k: int| 0 <= k < s.len() && #[trigger] cut_at(s, k, p),
{
    let n = s.len() as int;
    let a = colon_cuts(s, n);
    let b = comma_cuts(s, n);
    lemma_colon_members(s, n, p);
    lemma_comma_members(s, n, p);
    if a.contains(p) {
        let i = choose|i: int| 0 <= i < a.len() && a[i] == p;
        assert(prefixes(s)[i] == p);
        let k = choose|k: int| 0 <= k < n && #[trigger] s[k] == ':' && p == s.take(k + 1);
        assert(cut_at(s, k, p));
    }
    if b.contains(p) {
        let i = choose|i: int| 0 <= i < b.len() && b[i] == p;
        assert(prefixes(s)[a.len() + i] == p);
        let k = choose|k: int|
            0 <= k < n && #[trigger] s[k] == ',' && one_colon(s.take(k)) && (p == s.take(k + 1)
                || p == s.take(k).push(':'));
        assert(cut_at(s, k, p));
    }
    if prefixes(s).contains(p) {
        let i = choose|i: int| 0 <= i < prefixes(s).len() && prefixes(s)[i] == p;
        if i < a.len() {
            assert(a[i] == p);
        } else {
            assert(b[i - a.len()] == p);
        }
    }
    if exists|k: int| 0 <= k < s.len() && #[trigger] cut_at(s, k, p) {
        let k = choose|k: int| 0 <= k < s.len() && #[trigger] cut_at(s, k, p);
        if s[k] == ':' {
            assert(a.contains(p));
        } else {
            assert(b.contains(p));
        }
    }
}

proof fn lemma_colon_members(s: Seq<char>, n: int, p: Seq<char>)
    requires
        0 <= n <= s.len(),
    ensures
        colon_cuts(s, n).contains(p) <==> exists|k: int|
            0 <= k < n && #[trigger] s[k] == ':' && p == s.take(k + 1),
    decreases n,
{
    if n > 0 {
        lemma_colon_members(s, n - 1, p);
        let rest = colon_cuts(s, n - 1);
        let all = colon_cuts(s, n);
        if s[n - 1] == ':' {
            assert(all[0] == s.take(n));
            if rest.contains(p) {
                let i = choose|i: int| 0 <= i < rest.len() && rest[i] == p;
                assert(all[i + 1] == p);
            }
            if all.contains(p) {
                let i = choose|i: int| 0 <= i < all.len() && all[i] == p;
                if i > 0 {
                    assert(rest[i - 1] == p);
                }
            }
        }
    }
}

proof fn lemma_comma_members(s: Seq<char>, n: int, p: Seq<char>)
    requires
        0 <= n <= s.len(),
    ensures
        comma_cuts(s, n).contains(p) <==> exists|k: int|
            0 <= k < n && #[trigger] s[k] == ',' && one_colon(s.take(k)) && (p == s.take(k + 1)
                || p == s.take(k).push(':')),
    decreases n,
{
    if n > 0 {
        lemma_comma_members(s, n - 1, p);
        let rest = comma_cuts(s, n - 1);
        let all = comma_cuts(s, n);
        if s[n - 1] == ',' && one_colon(s.take(n - 1)) {
            assert(all[0] == s.take(n));
            assert(all[1] == s.take(n - 1).push(':'));
            if rest.contains(p) {
                let i = choose|i: int| 0 <= i < rest.len() && rest[i] == p;
                assert(all[i + 2] == p);
            }
            if all.contains(p) {
                let i = choose|i: int| 0 <= i < all.len() && all[i] == p;
                if i > 1 {
                    assert(rest[i - 2] == p);
                }
            }
        }
    }
}

/// Among the prefixes that end at a `:` the most specific comes first.
pub proof fn law_colon_cuts_most_specific_first(s: Seq<char>, n: int, i: int, j: int)
    requires
        0 <= n <= s.len(),
        0 <= i < j < colon_cuts(s, n).len(),
    ensures
        colon_cuts(s, n)[i].len() > colon_cuts(s, n)[j].len(),
    decreases n,
{
    if s[n - 1] == ':' {
        if i > 0 {
            law_colon_cuts_most_specific_first(s, n - 1, i - 1, j - 1);
        } else {
            let rest = colon_cuts(s, n - 1);
            assert(rest.contains(rest[j - 1]));
            lemma_colon_members(s, n - 1, rest[j - 1]);
        }
    } else {
        law_colon_cuts_most_specific_first(s, n - 1, i, j);
    }
}

/// Among the prefixes that end within the file path the most specific comes
/// first: they come in pairs that name the same level and are equally long, and
/// each pair is shorter than the one before.
pub proof fn law_comma_cuts_most_specific_first(s: Seq<char>, n: int, i: int, j: int)
    requires
        0 <= n <= s.len(),
        0 <= i < j < comma_cuts(s, n).len(),
    ensures
        i / 2 < j / 2 ==> comma_cuts(s, n)[i].len() > comma_cuts(s, n)[j].len(),
        i / 2 == j / 2 ==> comma_cuts(s, n)[i].len() == comma_cuts(s, n)[j].len(),
    decreases n,
{
    if s[n - 1] == ',' && one_colon(s.take(n - 1)) {
        if i > 1 {
            law_comma_cuts_most_specific_first(s, n - 1, i - 2, j - 2);
        } else if j > 1 {
            let rest = comma_cuts(s, n - 1);
            assert(rest.contains(rest[j - 2]));
            lemma_comma_members(s, n - 1, rest[j - 2]);
        }
    } else {
        law_comma_cuts_most_specific_first(s, n - 1, i, j);
    }
}

/// A selector lies in every level that it can be cut to, so that a passing one
/// rules out all of its own prefixes.
pub proof fn law_selector_lies_in_its_prefixes(s: Seq<char>, p: Seq<char>)
    requires
        prefixes(s).contains(p),
    ensures
        lies_in(s, p),
{
    law_prefixes_are_the_cuts(s, p);
    let k = choose|k: int| 0 <= k < s.len() && #[trigger] cut_at(s, k, p);
    assert(s.take(k + 1) == s.take(k).push(s[k]));
    assert(names_level(s, k, p));
}

/// The index of the first `:` at or after `from`, or the length of `text`.
fn colon_from(text: &[char], from: usize) -> (at: usize)
    requires
        from <= text@.len(),
    ensures
        from <= at <= text@.len(),
        at < text@.len() ==> text@[at as int] == ':',
        forall|i: int| from <= i < at ==> text@[i] != ':',
{
    let mut at: usize = from;
    while at < text.len()
        invariant
            from <= at <= text@.len(),
            forall|i: int| from <= i < at ==> text@[i] != ':',
        decreases text@.len() - at,
    {
        if text[at] == ':' {
            return at;
        }
        at = at + 1;
    }
    at
}

/// Where the file path of `text` begins, and where it ends: it has none where
/// the first is past the second.
pub(crate) fn file_path(text: &[char]) -> (range: (usize, usize))
    ensures
        range.1 <= text@.len(),
        forall|k: int|
            0 <= k <= text@.len() ==> (#[trigger] one_colon(text@.take(k)) <==> range.0 <= k
                <= range.1),
{
    let first = colon_from(text, 0);
    if first == text.len() {
        proof {
            assert forall|k: int| 0 <= k <= text@.len() implies !#[trigger] one_colon(
                text@.take(k),
            ) by {}
        }
        return (1, 0);
    }
    let second = colon_from(text, first + 1);
    proof {
        assert forall|k: int| 0 <= k <= text@.len() implies (#[trigger] one_colon(text@.take(k))
            <==> first + 1 <= k <= second) by {
            let s = text@.take(k);
            if first + 1 <= k <= second {
                assert(s[first as int] == ':');
            }
            if one_colon(s) {
                let c = choose|c: int|
                    0 <= c < s.len() && #[trigger] s[c] == ':' && forall|j: int|
                        0 <= j < s.len() && j != c ==> s[j] != ':';
                if k > second {
                    assert(s[first as int] == ':' && s[second as int] == ':');
                }
            }
        }
    }
    (first + 1, second)
}

/// The first `k` characters of `s`, and `separator` behind them.
pub(crate) fn level(s: &str, k: usize, separator: &str) -> (name: String)
    requires
        k <= s@.len(),
    ensures
        name@ == s@.take(k as int) + separator@,
{
    s.substring_char(0, k).to_owned().concat(separator)
}

/// Candidate wildcard prefixes for a selector: for each level above it, longest
/// first, first the ones that end at a `:`, then those that end within the file
/// path.
pub fn generate_prefixes(selector: &str) -> (list: Vec<String>)
    ensures
        texts(list@) == prefixes(selector@),
{
    let text = chars_of(selector);
    let ghost s = selector@;
    let mut list: Vec<String> = Vec::new();
    proof {
        reveal_strlit(",");
        reveal_strlit(":");
    }
    let mut n: usize = text.len();
    assert(texts(list@) == Seq::<Seq<char>>::empty());
    while n > 0
        invariant
            s == selector@,
            text@ == s,
            ":"@ == seq![':'],
            n <= s.len(),
            colon_cuts(s, s.len() as int) == texts(list@) + colon_cuts(s, n as int),
        decreases n,
    {
        if text[n - 1] == ':' {
            let ghost before = texts(list@);
            let name = level(selector, n - 1, ":");
            list.push(name);
            proof {
                assert(name@ == s.take(n as int));
                assert(texts(list@) == before.push(name@));
                assert(before + colon_cuts(s, n as int) == before.push(name@) + colon_cuts(
                    s,
                    n - 1,
                ));
            }
        }
        n = n - 1;
    }
    let ghost head = texts(list@);
    assert(head == colon_cuts(s, s.len() as int));
    let (start, end) = file_path(&text);
    let mut n: usize = text.len();
    assert(head == head + Seq::<Seq<char>>::empty());
    while n > 0
        invariant
            s == selector@,
            text@ == s,
            ":"@ == seq![':'],
            ","@ == seq![','],
            n <= s.len(),
            forall|k: int|
                0 <= k <= s.len() ==> (#[trigger] one_colon(s.take(k)) <==> start <= k <= end),
            prefixes(s) == texts(list@) + comma_cuts(s, n as int),
        decreases n,
    {
        assert(one_colon(s.take(n - 1)) <==> start <= n - 1 <= end);
        if text[n - 1] == ',' && start <= n - 1 && n - 1 <= end {
            let ghost before = texts(list@);
            let name = level(selector, n - 1, ",");
            let below = level(selector, n - 1, ":");
            list.push(name);
            list.push(below);
            proof {
                assert(name@ == s.take(n as int));
                assert(below@ == s.take(n - 1).push(':'));
                assert(texts(list@) == before.push(name@).push(below@));
                assert(before + comma_cuts(s, n as int) == before.push(name@).push(below@)
                    + comma_cuts(s, n - 1));
            }
        }
        n = n - 1;
    }
    assert(texts(list@) + Seq::<Seq<char>>::empty() == texts(list@));
    list
}

/// Every prefix that any of `selectors` starts with, at the boundaries
/// [`generate_prefixes`] cuts at. Used to reject a candidate wildcard that
/// would swallow a selector we don't want to cover.
pub fn build_prefix_set(selectors: &StringSet) -> (set: StringSet)
    ensures
        forall|p: Seq<char>| #[trigger]
            set@.contains(p) <==> exists|i: int|
                0 <= i < selectors@.len() && #[trigger] lies_in(selectors@[i], p),
        ascending(set@),
{
    let items = selectors.as_slice();
    let mut set = StringSet::new();
    let mut i: usize = 0;
    while i < items.len()
        invariant
            texts(items@) == selectors@,
            i <= items@.len(),
            ascending(set@),
            forall|p: Seq<char>| #[trigger]
                set@.contains(p) <==> exists|j: int|
                    0 <= j < i && #[trigger] lies_in(selectors@[j], p),
        decreases items@.len() - i,
    {
        let ghost before = set@;
        add_levels(&items[i], &mut set);
        proof {
            assert(selectors@[i as int] == items@[i as int]@);
            assert forall|p: Seq<char>| #[trigger] set@.contains(p) <==> exists|j: int|
                0 <= j < i + 1 && #[trigger] lies_in(selectors@[j], p) by {
                assert(set@.contains(p) <==> before.contains(p) || lies_in(
                    selectors@[i as int],
                    p,
                ));
            }
        }
        i = i + 1;
    }
    set
}

/// Adds the names of every level that `selector` lies in.
fn add_levels(selector: &str, set: &mut StringSet)
    requires
        ascending(old(set)@),
    ensures
        ascending(final(set)@),
        forall|p: Seq<char>| #[trigger]
            final(set)@.contains(p) <==> old(set)@.contains(p) || lies_in(selector@, p),
{
    let text = chars_of(selector);
    let ghost s = selector@;
    let ghost before = set@;
    let (start, end) = file_path(&text);
    proof {
        reveal_strlit("");
        reveal_strlit(",");
        reveal_strlit(":");
    }
    let mut k: usize = 0;
    loop
        invariant
            s == selector@,
            text@ == s,
            before == old(set)@,
            ascending(set@),
            ""@ == Seq::<char>::empty(),
            ":"@ == seq![':'],
            ","@ == seq![','],
            k <= s.len(),
            forall|k: int|
                0 <= k <= s.len() ==> (#[trigger] one_colon(s.take(k)) <==> start <= k <= end),
            forall|p: Seq<char>| #[trigger]
                set@.contains(p) <==> before.contains(p) || exists|j: int|
                    0 <= j < k && #[trigger] names_level(s, j, p),
        decreases s.len() - k,
    {
        let ghost entry = set@;
        let in_path = start <= k && k <= end;
        assert(in_path == one_colon(s.take(k as int)));
        let ends_part = k == text.len() || text[k] == ':';
        if ends_part || in_path && text[k] == ',' {
            insert_level(selector, k, "", set);
            insert_level(selector, k, ":", set);
            if in_path {
                insert_level(selector, k, ",", set);
            }
        }
        proof {
            let here = s.take(k as int);
            assert(here + ""@ == here);
            assert(here + ":"@ == here.push(':'));
            assert(here + ","@ == here.push(','));
            assert forall|p: Seq<char>| #[trigger] set@.contains(p) <==> before.contains(p)
                || exists|j: int| 0 <= j < k + 1 && #[trigger] names_level(s, j, p) by {
                assert(set@.contains(p) <==> entry.contains(p) || names_level(s, k as int, p));
            }
        }
        if k == text.len() {
            return;
        }
        k = k + 1;
    }
}

/// Adds the first `k` characters of `s` with `separator` behind them.
fn insert_level(s: &str, k: usize, separator: &str, set: &mut StringSet)
    requires
        k <= s@.len(),
    ensures
        ascending(final(set)@),
        forall|p: Seq<char>| #[trigger]
            final(set)@.contains(p) <==> old(set)@.contains(p) || p == s@.take(k as int)
                + separator@,
{
    let ghost before = set@;
    set.insert(level(s, k, separator));
    proof {
        assert forall|p: Seq<char>| #[trigger] set@.contains(p) <==> before.contains(p) || p
            == s@.take(k as int) + separator@ by {
            assert(set@.to_set().contains(p) == set@.contains(p));
            assert(before.to_set().contains(p) == before.contains(p));
        }
    }
}

} // verus!
