//! Which wildcards a cover is made of, told by what they match.

use crate::cover_laws::{law_best_exists, law_cover_is_minimal, names_it};
use crate::coverage::{credited_at, lemma_credited, lemma_prefix_shape};
use crate::order::{ascending, precedes};
use crate::pattern::{pattern_matches, WILDCARD};
use crate::pattern_laws::law_trailing_wildcard_is_exact;
use crate::prefix_laws::lemma_one_colon;
use crate::prefixes::{lies_in, names_level, one_colon, prefixes};
use crate::text::pieces;
use crate::wildcards::{
    beats, best, candidate, cover, lemma_fewer, missed, preferred, reached, reaches,
};
use vstd::prelude::*;
use vstd::utf8::encode_utf8;

verus! {

/// In which levels a selector lies, of those that can be cut from some selector.
proof fn lemma_barred(t: Seq<char>, p: Seq<char>, s: Seq<char>)
    requires
        prefixes(t).contains(p),
    ensures
        p.len() > 0,
        lies_in(s, p) <==> reaches(p, s) || s == p.drop_last() || (p.last() == ':' && one_colon(
            p.drop_last(),
        ) && p.drop_last().push(',').is_prefix_of(s)),
{
    lemma_prefix_shape(t, p);
    lemma_credited(t, p, s);
    let stem = p.drop_last();
    let n = stem.len() as int;
    assert(p == stem.push(p.last()));
    if lies_in(s, p) {
        let k = choose|k: int| 0 <= k <= s.len() && #[trigger] names_level(s, k, p);
        let head = s.take(k);
        if p == head {
            assert(p == s.subrange(0, k));
        } else {
            assert(head == stem) by {
                assert(head.push(':').drop_last() == head);
                assert(head.push(',').drop_last() == head);
            }
            if k < s.len() {
                assert(s.take(k + 1) == stem.push(s[k]));
                assert(s.subrange(0, k + 1) == stem.push(s[k]));
            } else {
                assert(s == stem);
            }
        }
    }
    if reaches(p, s) {
        let k = choose|k: int| 0 <= k < s.len() && #[trigger] credited_at(s, k, p);
        assert(names_level(s, k, p));
    }
    if s == stem {
        assert(s.take(n) == s);
        assert(names_level(s, n, p));
    }
    if p.last() == ':' && one_colon(stem) && stem.push(',').is_prefix_of(s) {
        assert(s[n] == stem.push(',')[n]);
        assert(s.take(n) == stem);
        assert(names_level(s, n, p));
    }
}

/// A prefix of a failing selector may be made a wildcard just where no passing
/// selector speaks against it: none is matched by the wildcard, none is the prefix
/// without its separator, and, where the prefix is a level of the file path with a
/// `:` behind, none goes on from that level with a `,`.
pub proof fn law_only_passing_selectors_bar(
    failed: Seq<Seq<char>>,
    passed: Seq<Seq<char>>,
    t: int,
    p: Seq<char>,
)
    requires
        0 <= t < failed.len(),
        prefixes(failed[t]).contains(p),
        !p.contains(WILDCARD),
    ensures
        candidate(failed, passed, p) <==> forall|j: int|
            0 <= j < passed.len() ==> {
                &&& !pattern_matches(pieces(p.push(WILDCARD), WILDCARD), #[trigger] passed[j])
                &&& passed[j] != p.drop_last()
                &&& !(p.last() == ':' && pieces(p.drop_last(), ':').len() == 2
                    && p.drop_last().push(',').is_prefix_of(passed[j]))
            },
{
    lemma_one_colon(p.drop_last());
    assert forall|j: int| 0 <= j < passed.len() implies (lies_in(#[trigger] passed[j], p)
        <==> pattern_matches(pieces(p.push(WILDCARD), WILDCARD), passed[j]) || passed[j]
        == p.drop_last() || (p.last() == ':' && pieces(p.drop_last(), ':').len() == 2
        && p.drop_last().push(',').is_prefix_of(passed[j]))) by {
        lemma_barred(failed[t], p, passed[j]);
        law_trailing_wildcard_is_exact(p, passed[j]);
    }
    if candidate(failed, passed, p) {
        assert forall|j: int| 0 <= j < passed.len() implies {
            &&& !pattern_matches(pieces(p.push(WILDCARD), WILDCARD), #[trigger] passed[j])
            &&& passed[j] != p.drop_last()
            &&& !(p.last() == ':' && pieces(p.drop_last(), ':').len() == 2
                && p.drop_last().push(',').is_prefix_of(passed[j]))
        } by {
            assert(!lies_in(passed[j], p));
        }
    }
}

/// A prefix of no failing selector is never made a wildcard.
pub proof fn law_wildcards_come_from_failing_selectors(
    failed: Seq<Seq<char>>,
    passed: Seq<Seq<char>>,
    p: Seq<char>,
)
    requires
        forall|t: int| 0 <= t < failed.len() ==> !prefixes(#[trigger] failed[t]).contains(p),
    ensures
        !candidate(failed, passed, p),
{
}

/// No fewer patterns do: however the failing selectors are named, each by itself
/// or by a wildcard at one of its level boundaries against which no passing
/// selector speaks, there are as many names as the cover has entries.
pub proof fn law_no_fewer_patterns_cover(
    failed: Seq<Seq<char>>,
    passed: Seq<Seq<char>>,
    names: Seq<Seq<char>>,
)
    requires
        ascending(failed),
        forall|s: Seq<char>| #[trigger]
            failed.contains(s) ==> exists|k: int|
                0 <= k < names.len() && {
                    let name = #[trigger] names[k];
                    let p = name.drop_last();
                    ||| name == s
                    ||| {
                        &&& pattern_matches(pieces(name, WILDCARD), s)
                        &&& name.len() > 0 && name.last() == WILDCARD && !p.contains(WILDCARD)
                        &&& exists|t: int|
                            0 <= t < failed.len() && #[trigger] prefixes(failed[t]).contains(p)
                        &&& forall|j: int|
                            0 <= j < passed.len() ==> {
                                &&& !pattern_matches(pieces(name, WILDCARD), #[trigger] passed[j])
                                &&& passed[j] != p.drop_last()
                                &&& !(p.last() == ':' && pieces(p.drop_last(), ':').len() == 2
                                    && p.drop_last().push(',').is_prefix_of(passed[j]))
                            }
                    }
                },
    ensures
        cover(failed, passed, failed).len() <= names.len(),
{
    assert forall|s: Seq<char>| #[trigger] failed.contains(s) implies exists|k: int|
        0 <= k < names.len() && #[trigger] names_it(failed, passed, names[k], s) by {
        let k = choose|k: int|
            0 <= k < names.len() && {
                let name = #[trigger] names[k];
                let p = name.drop_last();
                ||| name == s
                ||| {
                    &&& pattern_matches(pieces(name, WILDCARD), s)
                    &&& name.len() > 0 && name.last() == WILDCARD && !p.contains(WILDCARD)
                    &&& exists|t: int|
                        0 <= t < failed.len() && #[trigger] prefixes(failed[t]).contains(p)
                    &&& forall|j: int|
                        0 <= j < passed.len() ==> {
                            &&& !pattern_matches(pieces(name, WILDCARD), #[trigger] passed[j])
                            &&& passed[j] != p.drop_last()
                            &&& !(p.last() == ':' && pieces(p.drop_last(), ':').len() == 2
                                && p.drop_last().push(',').is_prefix_of(passed[j]))
                        }
                }
            };
        let name = names[k];
        let p = name.drop_last();
        if name != s {
            let t = choose|t: int|
                0 <= t < failed.len() && #[trigger] prefixes(failed[t]).contains(p);
            assert(name == p.push(WILDCARD));
            law_only_passing_selectors_bar(failed, passed, t, p);
            law_trailing_wildcard_is_exact(p, s);
        }
        assert(names_it(failed, passed, name, s));
    }
    law_cover_is_minimal(failed, passed, names);
}

/// Conditions that agree on a list keep the same of it.
proof fn lemma_filter_same(
    list: Seq<Seq<char>>,
    f: spec_fn(Seq<char>) -> bool,
    g: spec_fn(Seq<char>) -> bool,
)
    requires
        forall|i: int| 0 <= i < list.len() ==> f(#[trigger] list[i]) == g(list[i]),
    ensures
        list.filter(f) == list.filter(g),
    decreases list.len(),
{
    reveal(Seq::filter);
    if list.len() > 0 {
        let head = list.drop_last();
        assert forall|i: int| 0 <= i < head.len() implies f(#[trigger] head[i]) == g(head[i]) by {
            assert(head[i] == list[i]);
        }
        lemma_filter_same(head, f, g);
        assert(f(list[list.len() - 1]) == g(list[list.len() - 1]));
    }
}

/// Two conditions after another keep what both together keep.
proof fn lemma_filter_twice(
    list: Seq<Seq<char>>,
    f: spec_fn(Seq<char>) -> bool,
    g: spec_fn(Seq<char>) -> bool,
    h: spec_fn(Seq<char>) -> bool,
)
    requires
        forall|i: int| 0 <= i < list.len() ==> h(#[trigger] list[i]) == (f(list[i]) && g(list[i])),
    ensures
        list.filter(f).filter(g) == list.filter(h),
    decreases list.len(),
{
    reveal(Seq::filter);
    if list.len() > 0 {
        let head = list.drop_last();
        assert forall|i: int| 0 <= i < head.len() implies h(#[trigger] head[i]) == (f(head[i])
            && g(head[i])) by {
            assert(head[i] == list[i]);
        }
        lemma_filter_twice(head, f, g, h);
        let last = list[list.len() - 1];
        assert(h(last) == (f(last) && g(last)));
        if f(last) {
            assert(list.filter(f).drop_last() == head.filter(f));
        }
    }
}

/// Whether none of the first `i` entries lists `s`.
pub open spec fn unlisted(
    entries: Seq<(Seq<char>, Seq<Seq<char>>)>,
    i: int,
    s: Seq<char>,
) -> bool {
    forall|j: int| 0 <= j < i ==> !(#[trigger] entries[j]).1.contains(s)
}

/// What is not in the first entry is what the best candidate misses.
proof fn lemma_unlisted(
    failed: Seq<Seq<char>>,
    passed: Seq<Seq<char>>,
    left: Seq<Seq<char>>,
    b: Seq<char>,
    i: int,
    s: Seq<char>,
)
    requires
        exists|p: Seq<char>| best(failed, passed, left, p),
        b == (choose|p: Seq<char>| best(failed, passed, left, p)),
        left.contains(s),
        0 < i <= cover(failed, passed, left).len(),
    ensures
        unlisted(cover(failed, passed, left), i, s) <==> !reaches(b, s) && unlisted(
            cover(failed, passed, missed(left, b)),
            i - 1,
            s,
        ),
        missed(left, b).contains(s) <==> !reaches(b, s),
{
    lemma_fewer(left, b);
    let all = cover(failed, passed, left);
    let rest = cover(failed, passed, missed(left, b));
    let yes = |s: Seq<char>| reaches(b, s);
    let no = |s: Seq<char>| !reaches(b, s);
    let k = choose|k: int| 0 <= k < left.len() && left[k] == s;
    if reaches(b, s) {
        left.lemma_filter_contains(yes, k);
        assert(all[0].1.contains(s));
        if missed(left, b).contains(s) {
            let m = choose|m: int| 0 <= m < missed(left, b).len() && missed(left, b)[m] == s;
            left.lemma_filter_pred(no, m);
        }
    } else {
        left.lemma_filter_contains(no, k);
        if all[0].1.contains(s) {
            let m = choose|m: int| 0 <= m < reached(left, b).len() && reached(left, b)[m] == s;
            left.lemma_filter_pred(yes, m);
        }
    }
    assert forall|j: int| 0 < j < i implies all[j] == #[trigger] rest[j - 1] by {}
    if unlisted(all, i, s) {
        assert(!all[0].1.contains(s));
        assert forall|j: int| 0 <= j < i - 1 implies !(#[trigger] rest[j]).1.contains(s) by {
            assert(all[j + 1] == rest[j]);
        }
    }
    if !reaches(b, s) && unlisted(rest, i - 1, s) {
        assert forall|j: int| 0 <= j < i implies !(#[trigger] all[j]).1.contains(s) by {
            if j > 0 {
                assert(all[j] == rest[j - 1]);
            }
        }
    }
}

/// An entry that is a wildcard lists, of what is to be covered, just what its
/// pattern matches and no entry before lists.
pub proof fn law_entry_lists_what_it_matches(
    failed: Seq<Seq<char>>,
    passed: Seq<Seq<char>>,
    left: Seq<Seq<char>>,
    i: int,
    p: Seq<char>,
    s: Seq<char>,
)
    requires
        0 <= i < cover(failed, passed, left).len(),
        cover(failed, passed, left)[i].0 == p.push(WILDCARD),
        candidate(failed, passed, p),
        !p.contains(WILDCARD),
    ensures
        cover(failed, passed, left)[i].1.contains(s) <==> left.contains(s) && pattern_matches(
            pieces(cover(failed, passed, left)[i].0, WILDCARD),
            s,
        ) && unlisted(cover(failed, passed, left), i, s),
    decreases left.len(),
{
    law_trailing_wildcard_is_exact(p, s);
    let yes = |s: Seq<char>| reaches(p, s);
    if exists|b: Seq<char>| best(failed, passed, left, b) {
        let b = choose|b: Seq<char>| best(failed, passed, left, b);
        lemma_fewer(left, b);
        if i == 0 {
            assert(b.push(WILDCARD).drop_last() == b && p.push(WILDCARD).drop_last() == p);
            if reached(left, p).contains(s) {
                left.lemma_filter_contains_rev(yes, s);
                let m = choose|m: int| 0 <= m < reached(left, p).len() && reached(left, p)[m] == s;
                left.lemma_filter_pred(yes, m);
            }
            if left.contains(s) && reaches(p, s) {
                let k = choose|k: int| 0 <= k < left.len() && left[k] == s;
                left.lemma_filter_contains(yes, k);
            }
        } else {
            law_entry_lists_what_it_matches(failed, passed, missed(left, b), i - 1, p, s);
            let no = |s: Seq<char>| !reaches(b, s);
            if missed(left, b).contains(s) {
                left.lemma_filter_contains_rev(no, s);
            }
            if left.contains(s) {
                lemma_unlisted(failed, passed, left, b, i, s);
            }
        }
    } else {
        // A selector that is an allowed wildcard would be reached by it.
        let t = left[i];
        assert(p == t.subrange(0, p.len() as int));
        left.lemma_filter_contains(yes, i);
        law_best_exists(failed, passed, left, p);
    }
}

/// An entry is an allowed wildcard, or a selector by itself that no allowed
/// wildcard matches.
pub proof fn law_entry_is_wildcard_or_straggler(
    failed: Seq<Seq<char>>,
    passed: Seq<Seq<char>>,
    left: Seq<Seq<char>>,
    i: int,
)
    requires
        0 <= i < cover(failed, passed, left).len(),
    ensures
        ({
            let entry = cover(failed, passed, left)[i];
            ||| exists|p: Seq<char>| #[trigger]
                candidate(failed, passed, p) && entry.0 == p.push(WILDCARD)
            ||| {
                &&& left.contains(entry.0)
                &&& entry.1 == seq![entry.0]
                &&& forall|q: Seq<char>| #[trigger]
                    candidate(failed, passed, q) && !q.contains(WILDCARD) ==> !pattern_matches(
                        pieces(q.push(WILDCARD), WILDCARD),
                        entry.0,
                    )
            }
        }),
    decreases left.len(),
{
    if exists|b: Seq<char>| best(failed, passed, left, b) {
        let b = choose|b: Seq<char>| best(failed, passed, left, b);
        lemma_fewer(left, b);
        if i > 0 {
            let rest = missed(left, b);
            law_entry_is_wildcard_or_straggler(failed, passed, rest, i - 1);
            let no = |s: Seq<char>| !reaches(b, s);
            let text = cover(failed, passed, left)[i].0;
            if rest.contains(text) {
                left.lemma_filter_contains_rev(no, text);
            }
        } else {
            assert(candidate(failed, passed, b));
        }
    } else {
        let t = left[i];
        assert(left.contains(t));
        assert forall|q: Seq<char>| #[trigger]
            candidate(failed, passed, q) && !q.contains(WILDCARD) implies !pattern_matches(
            pieces(q.push(WILDCARD), WILDCARD),
            t,
        ) by {
            law_trailing_wildcard_is_exact(q, t);
            if reaches(q, t) {
                let yes = |s: Seq<char>| reaches(q, s);
                left.lemma_filter_contains(yes, i);
                law_best_exists(failed, passed, left, q);
            }
        }
    }
}

/// The round of the search in which an entry was found.
proof fn lemma_greedy(
    failed: Seq<Seq<char>>,
    passed: Seq<Seq<char>>,
    left: Seq<Seq<char>>,
    i: int,
    p: Seq<char>,
    q: Seq<char>,
)
    requires
        0 <= i < cover(failed, passed, left).len(),
        candidate(failed, passed, q),
    ensures
        ({
            let entry = cover(failed, passed, left)[i];
            let gain = left.filter(
                |s: Seq<char>| reaches(q, s) && unlisted(cover(failed, passed, left), i, s),
            ).len();
            &&& gain <= entry.1.len()
            &&& gain == entry.1.len() && entry.0 == p.push(WILDCARD) && p != q
                ==> preferred(failed, p, q)
        }),
    decreases left.len(),
{
    let all = cover(failed, passed, left);
    let f = |s: Seq<char>| reaches(q, s) && unlisted(all, i, s);
    let yes = |s: Seq<char>| reaches(q, s);
    if exists|b: Seq<char>| best(failed, passed, left, b) {
        let b = choose|b: Seq<char>| best(failed, passed, left, b);
        lemma_fewer(left, b);
        if i == 0 {
            lemma_filter_same(left, f, yes);
            assert(b.push(WILDCARD).drop_last() == b && p.push(WILDCARD).drop_last() == p);
            if q != b {
                assert(beats(failed, left, b, q));
            }
        } else {
            let rest = missed(left, b);
            lemma_greedy(failed, passed, rest, i - 1, p, q);
            let no = |s: Seq<char>| !reaches(b, s);
            let g = |s: Seq<char>| reaches(q, s) && unlisted(cover(failed, passed, rest), i - 1, s);
            assert forall|k: int| 0 <= k < left.len() implies f(#[trigger] left[k]) == (no(left[k])
                && g(left[k])) by {
                assert(left.contains(left[k]));
                lemma_unlisted(failed, passed, left, b, i, left[k]);
            }
            lemma_filter_twice(left, no, g, f);
        }
    } else {
        assert forall|k: int| 0 <= k < left.len() implies !reaches(q, #[trigger] left[k]) by {
            if reaches(q, left[k]) {
                left.lemma_filter_contains(yes, k);
                law_best_exists(failed, passed, left, q);
            }
        }
        let none = |s: Seq<char>| false;
        lemma_filter_same(left, f, none);
        assert(left.filter(none).len() == 0) by {
            if left.filter(none).len() > 0 {
                left.lemma_filter_pred(none, 0);
            }
        }
    }
}

/// No allowed wildcard matches more of the selectors that no entry before lists
/// than an entry does.
pub proof fn law_each_entry_covers_most(
    failed: Seq<Seq<char>>,
    passed: Seq<Seq<char>>,
    i: int,
    q: Seq<char>,
)
    requires
        0 <= i < cover(failed, passed, failed).len(),
        candidate(failed, passed, q),
        !q.contains(WILDCARD),
    ensures
        failed.filter(
            |s: Seq<char>|
                pattern_matches(pieces(q.push(WILDCARD), WILDCARD), s) && unlisted(
                    cover(failed, passed, failed),
                    i,
                    s,
                ),
        ).len() <= cover(failed, passed, failed)[i].1.len(),
{
    let all = cover(failed, passed, failed);
    let f = |s: Seq<char>|
        pattern_matches(pieces(q.push(WILDCARD), WILDCARD), s) && unlisted(all, i, s);
    let g = |s: Seq<char>| reaches(q, s) && unlisted(all, i, s);
    assert forall|k: int| 0 <= k < failed.len() implies f(#[trigger] failed[k]) == g(failed[k]) by {
        law_trailing_wildcard_is_exact(q, failed[k]);
    }
    lemma_filter_same(failed, f, g);
    lemma_greedy(failed, passed, failed, i, q, q);
}

/// Where two allowed wildcards match equally many of the selectors that no entry
/// before lists, the one that is offered matches more of all failing selectors,
/// or as many and is longer in UTF-8, or as long and comes first in order.
pub proof fn law_ties_go_to_the_more_specific(
    failed: Seq<Seq<char>>,
    passed: Seq<Seq<char>>,
    i: int,
    p: Seq<char>,
    q: Seq<char>,
)
    requires
        0 <= i < cover(failed, passed, failed).len(),
        cover(failed, passed, failed)[i].0 == p.push(WILDCARD),
        candidate(failed, passed, p) && !p.contains(WILDCARD),
        candidate(failed, passed, q) && !q.contains(WILDCARD),
        p != q,
        failed.filter(
            |s: Seq<char>|
                pattern_matches(pieces(q.push(WILDCARD), WILDCARD), s) && unlisted(
                    cover(failed, passed, failed),
                    i,
                    s,
                ),
        ).len() == cover(failed, passed, failed)[i].1.len(),
    ensures
        ({
            let many_p = failed.filter(
                |s: Seq<char>| pattern_matches(pieces(p.push(WILDCARD), WILDCARD), s),
            ).len();
            let many_q = failed.filter(
                |s: Seq<char>| pattern_matches(pieces(q.push(WILDCARD), WILDCARD), s),
            ).len();
            let long_p = encode_utf8(p).len();
            let long_q = encode_utf8(q).len();
            ||| many_p > many_q
            ||| many_p == many_q && long_p > long_q
            ||| many_p == many_q && long_p == long_q && precedes(p, q)
        }),
{
    let all = cover(failed, passed, failed);
    let f = |s: Seq<char>|
        pattern_matches(pieces(q.push(WILDCARD), WILDCARD), s) && unlisted(all, i, s);
    let g = |s: Seq<char>| reaches(q, s) && unlisted(all, i, s);
    let match_p = |s: Seq<char>| pattern_matches(pieces(p.push(WILDCARD), WILDCARD), s);
    let match_q = |s: Seq<char>| pattern_matches(pieces(q.push(WILDCARD), WILDCARD), s);
    let reach_p = |s: Seq<char>| reaches(p, s);
    let reach_q = |s: Seq<char>| reaches(q, s);
    assert forall|s: Seq<char>| #[trigger] match_p(s) == reach_p(s) by {
        law_trailing_wildcard_is_exact(p, s);
    }
    assert forall|s: Seq<char>| #[trigger] match_q(s) == reach_q(s) by {
        law_trailing_wildcard_is_exact(q, s);
    }
    assert forall|k: int| 0 <= k < failed.len() implies f(#[trigger] failed[k]) == g(failed[k]) by {
        assert(match_q(failed[k]) == reach_q(failed[k]));
    }
    lemma_filter_same(failed, f, g);
    lemma_filter_same(failed, match_p, reach_p);
    lemma_filter_same(failed, match_q, reach_q);
    lemma_greedy(failed, passed, failed, i, p, q);
}

/// A wildcard that is offered is the most specific of those that match the same
/// failing selectors.
pub proof fn law_most_specific_is_offered(
    failed: Seq<Seq<char>>,
    passed: Seq<Seq<char>>,
    i: int,
    p: Seq<char>,
    q: Seq<char>,
)
    requires
        0 <= i < cover(failed, passed, failed).len(),
        cover(failed, passed, failed)[i].0 == p.push(WILDCARD),
        candidate(failed, passed, p) && !p.contains(WILDCARD),
        candidate(failed, passed, q) && !q.contains(WILDCARD),
        forall|s: Seq<char>| #[trigger]
            failed.contains(s) ==> (pattern_matches(pieces(p.push(WILDCARD), WILDCARD), s)
                <==> pattern_matches(pieces(q.push(WILDCARD), WILDCARD), s)),
    ensures
        encode_utf8(p).len() >= encode_utf8(q).len(),
{
    if p != q {
        let all = cover(failed, passed, failed);
        let f_p = |s: Seq<char>|
            pattern_matches(pieces(p.push(WILDCARD), WILDCARD), s) && unlisted(all, i, s);
        let f_q = |s: Seq<char>|
            pattern_matches(pieces(q.push(WILDCARD), WILDCARD), s) && unlisted(all, i, s);
        let match_p = |s: Seq<char>| pattern_matches(pieces(p.push(WILDCARD), WILDCARD), s);
        let match_q = |s: Seq<char>| pattern_matches(pieces(q.push(WILDCARD), WILDCARD), s);
        assert forall|k: int| 0 <= k < failed.len() implies match_p(#[trigger] failed[k])
            == match_q(failed[k]) by {
            assert(failed.contains(failed[k]));
        }
        lemma_filter_same(failed, match_p, match_q);
        assert forall|k: int| 0 <= k < failed.len() implies f_p(#[trigger] failed[k]) == f_q(
            failed[k],
        ) by {
            assert(match_p(failed[k]) == match_q(failed[k]));
        }
        lemma_filter_same(failed, f_p, f_q);
        lemma_gain_is_listed(failed, passed, failed, i, p);
        let g = |s: Seq<char>| reaches(p, s) && unlisted(all, i, s);
        assert forall|k: int| 0 <= k < failed.len() implies f_p(#[trigger] failed[k]) == g(
            failed[k],
        ) by {
            law_trailing_wildcard_is_exact(p, failed[k]);
        }
        lemma_filter_same(failed, f_p, g);
        law_ties_go_to_the_more_specific(failed, passed, i, p, q);
    }
}

/// What a wildcard gains is what its entry lists, in the same order.
proof fn lemma_gain_is_listed(
    failed: Seq<Seq<char>>,
    passed: Seq<Seq<char>>,
    left: Seq<Seq<char>>,
    i: int,
    p: Seq<char>,
)
    requires
        0 <= i < cover(failed, passed, left).len(),
        cover(failed, passed, left)[i].0 == p.push(WILDCARD),
        candidate(failed, passed, p),
    ensures
        left.filter(
            |s: Seq<char>| reaches(p, s) && unlisted(cover(failed, passed, left), i, s),
        ) == cover(failed, passed, left)[i].1,
    decreases left.len(),
{
    let all = cover(failed, passed, left);
    let f = |s: Seq<char>| reaches(p, s) && unlisted(all, i, s);
    let yes = |s: Seq<char>| reaches(p, s);
    if exists|b: Seq<char>| best(failed, passed, left, b) {
        let b = choose|b: Seq<char>| best(failed, passed, left, b);
        lemma_fewer(left, b);
        if i == 0 {
            lemma_filter_same(left, f, yes);
            assert(b.push(WILDCARD).drop_last() == b && p.push(WILDCARD).drop_last() == p);
        } else {
            let rest = missed(left, b);
            lemma_gain_is_listed(failed, passed, rest, i - 1, p);
            let no = |s: Seq<char>| !reaches(b, s);
            let g = |s: Seq<char>| reaches(p, s) && unlisted(cover(failed, passed, rest), i - 1, s);
            assert forall|k: int| 0 <= k < left.len() implies f(#[trigger] left[k]) == (no(left[k])
                && g(left[k])) by {
                assert(left.contains(left[k]));
                lemma_unlisted(failed, passed, left, b, i, left[k]);
            }
            lemma_filter_twice(left, no, g, f);
        }
    } else {
        let t = left[i];
        assert(p == t.subrange(0, p.len() as int));
        left.lemma_filter_contains(yes, i);
        law_best_exists(failed, passed, left, p);
    }
}

/// An entry that is a wildcard keeps the failing selectors in their order.
pub proof fn law_entry_keeps_the_order(
    failed: Seq<Seq<char>>,
    passed: Seq<Seq<char>>,
    i: int,
    p: Seq<char>,
)
    requires
        0 <= i < cover(failed, passed, failed).len(),
        cover(failed, passed, failed)[i].0 == p.push(WILDCARD),
        candidate(failed, passed, p) && !p.contains(WILDCARD),
    ensures
        cover(failed, passed, failed)[i].1 == failed.filter(
            |s: Seq<char>|
                pattern_matches(pieces(p.push(WILDCARD), WILDCARD), s) && unlisted(
                    cover(failed, passed, failed),
                    i,
                    s,
                ),
        ),
{
    let all = cover(failed, passed, failed);
    let f = |s: Seq<char>|
        pattern_matches(pieces(p.push(WILDCARD), WILDCARD), s) && unlisted(all, i, s);
    let g = |s: Seq<char>| reaches(p, s) && unlisted(all, i, s);
    assert forall|k: int| 0 <= k < failed.len() implies f(#[trigger] failed[k]) == g(failed[k]) by {
        law_trailing_wildcard_is_exact(p, failed[k]);
    }
    lemma_filter_same(failed, f, g);
    lemma_gain_is_listed(failed, passed, failed, i, p);
}

/// What a wildcard misses of an ascending list is ascending.
proof fn lemma_missed_ascending(list: Seq<Seq<char>>, p: Seq<char>)
    requires
        ascending(list),
    ensures
        ascending(missed(list, p)),
    decreases list.len(),
{
    reveal(Seq::filter);
    if list.len() > 0 {
        let head = list.drop_last();
        let kept = missed(head, p);
        let no = |s: Seq<char>| !reaches(p, s);
        lemma_missed_ascending(head, p);
        assert forall|i: int| 0 <= i < kept.len() implies precedes(#[trigger] kept[i], list.last()) by {
            assert(kept.contains(kept[i]));
            head.lemma_filter_contains_rev(no, kept[i]);
            let k = choose|k: int| 0 <= k < head.len() && head[k] == kept[i];
            assert(precedes(list[k], list[list.len() - 1]));
        }
    }
}

/// Selectors that are named by themselves come behind all wildcards, in ascending
/// order.
pub proof fn law_stragglers_come_last_in_order(
    failed: Seq<Seq<char>>,
    passed: Seq<Seq<char>>,
    left: Seq<Seq<char>>,
    i: int,
    j: int,
)
    requires
        ascending(left),
        0 <= i < j < cover(failed, passed, left).len(),
        forall|p: Seq<char>| #[trigger]
            candidate(failed, passed, p) ==> cover(failed, passed, left)[i].0 != p.push(WILDCARD),
    ensures
        cover(failed, passed, left)[j].1 == seq![cover(failed, passed, left)[j].0],
        forall|p: Seq<char>| #[trigger]
            candidate(failed, passed, p) ==> cover(failed, passed, left)[j].0 != p.push(WILDCARD),
        precedes(cover(failed, passed, left)[i].0, cover(failed, passed, left)[j].0),
    decreases left.len(),
{
    if exists|b: Seq<char>| best(failed, passed, left, b) {
        let b = choose|b: Seq<char>| best(failed, passed, left, b);
        lemma_fewer(left, b);
        lemma_missed_ascending(left, b);
        if i == 0 {
            assert(candidate(failed, passed, b));
        } else {
            law_stragglers_come_last_in_order(failed, passed, missed(left, b), i - 1, j - 1);
        }
    } else {
        assert forall|p: Seq<char>| #[trigger] candidate(failed, passed, p) implies left[j]
            != p.push(WILDCARD) by {
            if left[j] == p.push(WILDCARD) {
                let yes = |s: Seq<char>| reaches(p, s);
                assert(p == left[j].subrange(0, p.len() as int));
                left.lemma_filter_contains(yes, j);
                law_best_exists(failed, passed, left, p);
            }
        }
    }
}

} // verus!
