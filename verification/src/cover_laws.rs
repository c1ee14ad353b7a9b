//! What holds of every cover of failing selectors by wildcards.

use crate::coverage::{credited_at, lemma_credited, lemma_prefix_shape};
use crate::order::{ascending, lemma_irreflexive, lemma_total, lemma_transitive, precedes};
use crate::pattern::{pattern_matches, WILDCARD};
use crate::pattern_laws::{
    law_pattern_matches_itself, law_trailing_wildcard_is_exact, law_trailing_wildcard_reaches,
};
use crate::prefixes::{lies_in, names_level, prefixes};
use crate::text::pieces;
use crate::wildcards::{beats, best, candidate, cover, lemma_fewer, missed, reached, reaches};
use vstd::prelude::*;

verus! {

/// The selectors that each entry of a cover lists.
pub open spec fn listed(cover: Seq<(Seq<char>, Seq<Seq<char>>)>) -> Seq<Seq<Seq<char>>> {
    cover.map_values(|e: (Seq<char>, Seq<Seq<char>>)| e.1)
}

/// What is left over of a list is reached no more than the list was.
proof fn lemma_reach_shrinks(list: Seq<Seq<char>>, p: Seq<char>, q: Seq<char>)
    ensures
        reached(missed(list, p), q).len() <= reached(list, q).len(),
    decreases list.len(),
{
    reveal(Seq::filter);
    if list.len() > 0 {
        lemma_reach_shrinks(list.drop_last(), p, q);
        if !reaches(p, list.last()) {
            assert(missed(list, p).drop_last() == missed(list.drop_last(), p));
        }
    }
}

/// No entry lists more than the best candidate reaches.
proof fn lemma_cover_bounded(
    failed: Seq<Seq<char>>,
    passed: Seq<Seq<char>>,
    left: Seq<Seq<char>>,
    most: nat,
)
    requires
        most >= 1,
        forall|q: Seq<char>| #[trigger]
            candidate(failed, passed, q) ==> reached(left, q).len() <= most,
    ensures
        forall|i: int|
            0 <= i < cover(failed, passed, left).len() ==> (#[trigger] cover(
                failed,
                passed,
                left,
            )[i]).1.len() <= most,
    decreases left.len(),
{
    if exists|p: Seq<char>| best(failed, passed, left, p) {
        let p = choose|p: Seq<char>| best(failed, passed, left, p);
        lemma_fewer(left, p);
        assert forall|q: Seq<char>| #[trigger] candidate(failed, passed, q) implies reached(
            missed(left, p),
            q,
        ).len() <= most by {
            lemma_reach_shrinks(left, p, q);
        }
        lemma_cover_bounded(failed, passed, missed(left, p), most);
        let rest = cover(failed, passed, missed(left, p));
        assert forall|i: int| 0 <= i < cover(failed, passed, left).len() implies (
        #[trigger] cover(failed, passed, left)[i]).1.len() <= most by {
            if i > 0 {
                assert(cover(failed, passed, left)[i] == rest[i - 1]);
            }
        }
    }
}

/// The entries of a cover come most-covering first.
pub proof fn law_cover_most_covering_first(
    failed: Seq<Seq<char>>,
    passed: Seq<Seq<char>>,
    left: Seq<Seq<char>>,
    i: int,
    j: int,
)
    requires
        0 <= i <= j < cover(failed, passed, left).len(),
    ensures
        cover(failed, passed, left)[i].1.len() >= cover(failed, passed, left)[j].1.len(),
    decreases left.len(),
{
    if exists|p: Seq<char>| best(failed, passed, left, p) {
        let p = choose|p: Seq<char>| best(failed, passed, left, p);
        lemma_fewer(left, p);
        let rest = cover(failed, passed, missed(left, p));
        if i > 0 {
            law_cover_most_covering_first(failed, passed, missed(left, p), i - 1, j - 1);
        } else if j > 0 {
            let most = reached(left, p).len();
            assert forall|q: Seq<char>| #[trigger] candidate(failed, passed, q) implies reached(
                missed(left, p),
                q,
            ).len() <= most by {
                lemma_reach_shrinks(left, p, q);
            }
            lemma_cover_bounded(failed, passed, missed(left, p), most);
            assert(cover(failed, passed, left)[j] == rest[j - 1]);
        }
    }
}

/// What a wildcard reaches of a list and what it misses make up the list.
proof fn lemma_split(list: Seq<Seq<char>>, p: Seq<char>)
    ensures
        reached(list, p).to_multiset().add(missed(list, p).to_multiset()) == list.to_multiset(),
    decreases list.len(),
{
    broadcast use vstd::seq_lib::group_to_multiset_ensures;

    reveal(Seq::filter);
    if list.len() > 0 {
        let head = list.drop_last();
        lemma_split(head, p);
        assert(list == head.push(list.last()));
        assert(reached(list, p).to_multiset().add(missed(list, p).to_multiset())
            =~= list.to_multiset());
    } else {
        assert(reached(list, p).to_multiset().add(missed(list, p).to_multiset())
            =~= list.to_multiset());
    }
}

/// Singletons, one after the other.
proof fn lemma_flatten_singles(list: Seq<Seq<char>>)
    ensures
        listed(list.map_values(|s: Seq<char>| (s, seq![s]))).flatten() == list,
    decreases list.len(),
{
    let single = |s: Seq<char>| (s, seq![s]);
    let all = listed(list.map_values(single));
    if list.len() > 0 {
        let rest = list.drop_first();
        lemma_flatten_singles(rest);
        assert(all.first() == seq![list.first()]);
        assert(all.drop_first() == listed(rest.map_values(single)));
        assert(all.flatten() == seq![list.first()] + rest);
    } else {
        assert(all.flatten() == list);
    }
}

/// Every selector is listed, and listed once: in all, the entries of a cover
/// list what was to be covered.
pub proof fn law_cover_lists_everything_once(
    failed: Seq<Seq<char>>,
    passed: Seq<Seq<char>>,
    left: Seq<Seq<char>>,
)
    ensures
        listed(cover(failed, passed, left)).flatten().to_multiset() == left.to_multiset(),
    decreases left.len(),
{
    broadcast use vstd::seq_lib::group_to_multiset_ensures;

    let all = listed(cover(failed, passed, left));
    if exists|p: Seq<char>| best(failed, passed, left, p) {
        let p = choose|p: Seq<char>| best(failed, passed, left, p);
        lemma_fewer(left, p);
        law_cover_lists_everything_once(failed, passed, missed(left, p));
        let rest = listed(cover(failed, passed, missed(left, p)));
        assert(all.first() == reached(left, p));
        assert(all.drop_first() == rest);
        assert(all.flatten() == reached(left, p) + rest.flatten());
        vstd::seq_lib::lemma_multiset_commutative(reached(left, p), rest.flatten());
        lemma_split(left, p);
    } else {
        lemma_flatten_singles(left);
    }
}

/// Every selector is matched by the pattern that lists it.
pub proof fn law_cover_matches_what_it_lists(
    failed: Seq<Seq<char>>,
    passed: Seq<Seq<char>>,
    left: Seq<Seq<char>>,
    i: int,
    s: Seq<char>,
)
    requires
        0 <= i < cover(failed, passed, left).len(),
        cover(failed, passed, left)[i].1.contains(s),
    ensures
        pattern_matches(pieces(cover(failed, passed, left)[i].0, WILDCARD), s),
    decreases left.len(),
{
    if exists|p: Seq<char>| best(failed, passed, left, p) {
        let p = choose|p: Seq<char>| best(failed, passed, left, p);
        lemma_fewer(left, p);
        if i > 0 {
            law_cover_matches_what_it_lists(failed, passed, missed(left, p), i - 1, s);
        } else {
            let pred = |s: Seq<char>| reaches(p, s);
            let k = choose|k: int| 0 <= k < reached(left, p).len() && reached(left, p)[k] == s;
            left.lemma_filter_pred(pred, k);
            law_trailing_wildcard_reaches(p, s);
        }
    } else {
        law_pattern_matches_itself(s);
    }
}

/// The pattern of an entry is a candidate with a wildcard behind, or a selector.
proof fn lemma_cover_shape(
    failed: Seq<Seq<char>>,
    passed: Seq<Seq<char>>,
    left: Seq<Seq<char>>,
    i: int,
)
    requires
        0 <= i < cover(failed, passed, left).len(),
        forall|s: Seq<char>| #[trigger] left.contains(s) ==> failed.contains(s),
    ensures
        ({
            let text = cover(failed, passed, left)[i].0;
            ||| failed.contains(text)
            ||| exists|p: Seq<char>| #[trigger]
                candidate(failed, passed, p) && text == p.push(WILDCARD)
        }),
    decreases left.len(),
{
    if exists|p: Seq<char>| best(failed, passed, left, p) {
        let p = choose|p: Seq<char>| best(failed, passed, left, p);
        lemma_fewer(left, p);
        if i > 0 {
            let rest = missed(left, p);
            let pred = |s: Seq<char>| !reaches(p, s);
            assert forall|s: Seq<char>| #[trigger] rest.contains(s) implies failed.contains(s) by {
                left.lemma_filter_contains_rev(pred, s);
            }
            lemma_cover_shape(failed, passed, rest, i - 1);
        } else {
            assert(candidate(failed, passed, p));
        }
    } else {
        assert(left.contains(left[i]));
    }
}

/// A pattern of a cover matches a selector that passes only where it is a failing
/// selector, named by itself, or where a wildcard of a selector stands in it
/// before the last.
pub proof fn law_only_given_wildcards_match_passing(
    failed: Seq<Seq<char>>,
    passed: Seq<Seq<char>>,
    i: int,
    j: int,
)
    requires
        0 <= i < cover(failed, passed, failed).len(),
        0 <= j < passed.len(),
        pattern_matches(pieces(cover(failed, passed, failed)[i].0, WILDCARD), passed[j]),
    ensures
        failed.contains(cover(failed, passed, failed)[i].0)
            || cover(failed, passed, failed)[i].0.drop_last().contains(WILDCARD),
{
    let text = cover(failed, passed, failed)[i].0;
    let s = passed[j];
    lemma_cover_shape(failed, passed, failed, i);
    if !failed.contains(text) && !text.drop_last().contains(WILDCARD) {
        let p = choose|p: Seq<char>| #[trigger]
            candidate(failed, passed, p) && text == p.push(WILDCARD);
        let t = choose|t: int| 0 <= t < failed.len() && #[trigger] prefixes(failed[t]).contains(p);
        assert(text.drop_last() == p);
        law_trailing_wildcard_is_exact(p, s);
        lemma_credited(failed[t], p, s);
        let k = choose|k: int| 0 <= k < s.len() && #[trigger] credited_at(s, k, p);
        assert(names_level(s, k, p));
        assert(lies_in(s, p));
    }
}

/// No pattern of a cover matches a selector that passes.
///
/// A failing selector that, read as a pattern, matches a passing one may have to
/// be named by itself, and then does match it; and a wildcard within a prefix is
/// read as one. Where neither does, the passing selectors are spared.
pub proof fn law_cover_spares_passing(
    failed: Seq<Seq<char>>,
    passed: Seq<Seq<char>>,
    i: int,
    j: int,
)
    requires
        0 <= i < cover(failed, passed, failed).len(),
        0 <= j < passed.len(),
        forall|t: Seq<char>| #[trigger]
            failed.contains(t) ==> !pattern_matches(pieces(t, WILDCARD), passed[j]),
        forall|p: Seq<char>| #[trigger]
            candidate(failed, passed, p) && p.contains(WILDCARD) ==> !pattern_matches(
                pieces(p.push(WILDCARD), WILDCARD),
                passed[j],
            ),
    ensures
        !pattern_matches(pieces(cover(failed, passed, failed)[i].0, WILDCARD), passed[j]),
{
    let text = cover(failed, passed, failed)[i].0;
    if pattern_matches(pieces(text, WILDCARD), passed[j]) {
        law_only_given_wildcards_match_passing(failed, passed, i, j);
        lemma_cover_shape(failed, passed, failed, i);
        let p = choose|p: Seq<char>| #[trigger]
            candidate(failed, passed, p) && text == p.push(WILDCARD);
        assert(text.drop_last() == p);
    }
}

/// What is taken before a second is taken before all that the second is taken
/// before.
proof fn lemma_beats_transitive(
    failed: Seq<Seq<char>>,
    left: Seq<Seq<char>>,
    p: Seq<char>,
    q: Seq<char>,
    r: Seq<char>,
)
    requires
        beats(failed, left, p, q),
        beats(failed, left, q, r),
    ensures
        beats(failed, left, p, r),
{
    if precedes(p, q) && precedes(q, r) {
        lemma_transitive(p, q, r);
    }
}

/// Of finitely many one is taken before all the others.
proof fn lemma_champion(
    failed: Seq<Seq<char>>,
    left: Seq<Seq<char>>,
    list: Seq<Seq<char>>,
) -> (b: Seq<char>)
    requires
        list.len() > 0,
    ensures
        list.contains(b),
        forall|q: Seq<char>| #[trigger] list.contains(q) && q != b ==> beats(failed, left, b, q),
    decreases list.len(),
{
    let last = list.last();
    assert(list[list.len() - 1] == last);
    assert(list.contains(last));
    if list.len() == 1 {
        last
    } else {
        let head = list.drop_last();
        let a = lemma_champion(failed, left, head);
        let i = choose|i: int| 0 <= i < head.len() && head[i] == a;
        assert(list[i] == a);
        if a != last {
            lemma_total(a, last);
        }
        let b = if a == last || beats(failed, left, a, last) {
            a
        } else {
            last
        };
        assert forall|q: Seq<char>| #[trigger] list.contains(q) && q != b implies beats(
            failed,
            left,
            b,
            q,
        ) by {
            let k = choose|k: int| 0 <= k < list.len() && list[k] == q;
            if k < list.len() - 1 {
                assert(head[k] == q);
                assert(head.contains(q));
                if b != a && q != a {
                    lemma_beats_transitive(failed, left, b, a, q);
                }
            }
        }
        b
    }
}

/// The candidates among the prefixes of the first `n` failing selectors.
spec fn candidates(failed: Seq<Seq<char>>, passed: Seq<Seq<char>>, n: int) -> Seq<Seq<char>>
    decreases n,
{
    if n <= 0 {
        Seq::empty()
    } else {
        candidates(failed, passed, n - 1) + prefixes(failed[n - 1]).filter(
            |p: Seq<char>| candidate(failed, passed, p),
        )
    }
}

proof fn lemma_candidates(
    failed: Seq<Seq<char>>,
    passed: Seq<Seq<char>>,
    n: int,
    p: Seq<char>,
)
    requires
        0 <= n <= failed.len(),
    ensures
        candidates(failed, passed, n).contains(p) <==> candidate(failed, passed, p) && exists|i: int|
            0 <= i < n && #[trigger] prefixes(failed[i]).contains(p),
    decreases n,
{
    if n > 0 {
        lemma_candidates(failed, passed, n - 1, p);
        let pred = |p: Seq<char>| candidate(failed, passed, p);
        let before = candidates(failed, passed, n - 1);
        let cuts = prefixes(failed[n - 1]);
        let more = cuts.filter(pred);
        let all = before + more;
        if before.contains(p) {
            let k = choose|k: int| 0 <= k < before.len() && before[k] == p;
            assert(all[k] == p);
        }
        if more.contains(p) {
            let k = choose|k: int| 0 <= k < more.len() && more[k] == p;
            assert(all[before.len() + k] == p);
            cuts.lemma_filter_contains_rev(pred, p);
            cuts.lemma_filter_pred(pred, k);
        }
        if all.contains(p) {
            let k = choose|k: int| 0 <= k < all.len() && all[k] == p;
            if k < before.len() {
                assert(before[k] == p);
            } else {
                assert(more[k - before.len()] == p);
            }
        }
        if cuts.contains(p) && candidate(failed, passed, p) {
            let k = choose|k: int| 0 <= k < cuts.len() && cuts[k] == p;
            cuts.lemma_filter_contains(pred, k);
        }
    }
}

/// Selectors are named by themselves only when no candidate reaches any: as long
/// as one does, there is a best one.
pub proof fn law_best_exists(
    failed: Seq<Seq<char>>,
    passed: Seq<Seq<char>>,
    left: Seq<Seq<char>>,
    p: Seq<char>,
)
    requires
        candidate(failed, passed, p),
        reached(left, p).len() > 0,
    ensures
        exists|b: Seq<char>| best(failed, passed, left, b),
{
    let n = failed.len() as int;
    let all = candidates(failed, passed, n);
    assert forall|q: Seq<char>| #[trigger] all.contains(q) <==> candidate(failed, passed, q) by {
        lemma_candidates(failed, passed, n, q);
    }
    assert(all.contains(p));
    let b = lemma_champion(failed, left, all);
    assert(all.contains(b));
    assert forall|q: Seq<char>| #[trigger] candidate(failed, passed, q) && q != b implies beats(
        failed,
        left,
        b,
        q,
    ) by {
        assert(all.contains(q));
    }
    if b != p {
        assert(beats(failed, left, b, p));
    }
    assert(best(failed, passed, left, b));
}

/// A wildcard that reaches each of a list reaches the list.
proof fn lemma_reaches_all(list: Seq<Seq<char>>, p: Seq<char>)
    requires
        forall|i: int| 0 <= i < list.len() ==> reaches(p, #[trigger] list[i]),
    ensures
        reached(list, p) == list,
    decreases list.len(),
{
    reveal(Seq::filter);
    if list.len() > 0 {
        let head = list.drop_last();
        assert forall|i: int| 0 <= i < head.len() implies reaches(p, #[trigger] head[i]) by {
            assert(head[i] == list[i]);
        }
        lemma_reaches_all(head, p);
        assert(reaches(p, list[list.len() - 1]));
        assert(head.push(list.last()) == list);
    }
}

/// A wildcard that reaches as many as there are reaches them all.
proof fn lemma_full_reach(list: Seq<Seq<char>>, p: Seq<char>)
    requires
        reached(list, p).len() == list.len(),
    ensures
        reached(list, p) == list,
    decreases list.len(),
{
    reveal(Seq::filter);
    if list.len() > 0 {
        let head = list.drop_last();
        lemma_fewer(head, p);
        lemma_fewer(list, p);
        lemma_full_reach(head, p);
        assert(head.push(list.last()) == list);
    }
}

/// Where one candidate reaches every selector, one pattern covers them all.
pub proof fn law_one_wildcard_where_one_suffices(
    failed: Seq<Seq<char>>,
    passed: Seq<Seq<char>>,
    p: Seq<char>,
)
    requires
        candidate(failed, passed, p),
        forall|i: int| 0 <= i < failed.len() ==> reaches(p, #[trigger] failed[i]),
    ensures
        cover(failed, passed, failed).len() == 1,
        cover(failed, passed, failed)[0].1 == failed,
{
    lemma_reaches_all(failed, p);
    law_best_exists(failed, passed, failed, p);
    let b = choose|b: Seq<char>| best(failed, passed, failed, b);
    lemma_fewer(failed, b);
    if b != p {
        assert(beats(failed, failed, b, p));
    }
    lemma_full_reach(failed, b);
    let rest = missed(failed, b);
    assert forall|q: Seq<char>| !#[trigger] best(failed, passed, rest, q) by {
        lemma_fewer(rest, q);
    }
    assert(cover(failed, passed, rest).len() == 0);
}

/// Reach, character by character.
proof fn lemma_reach_chars(p: Seq<char>, s: Seq<char>)
    requires
        p.len() > 0,
    ensures
        reaches(p, s) <==> {
            &&& p.len() <= s.len()
            &&& forall|i: int| 0 <= i < p.len() - 1 ==> p[i] == s[i]
            &&& s[p.len() - 1] == p.last() || p.last() == ',' && s[p.len() - 1] == ':'
        },
{
    let n = p.len() as int;
    let lower = p.drop_last().push(':');
    if reaches(p, s) && !p.is_prefix_of(s) {
        assert forall|i: int| 0 <= i < n - 1 implies p[i] == s[i] by {
            assert(lower[i] == s[i]);
        }
        assert(lower[n - 1] == s[n - 1]);
    }
    if n <= s.len() && forall|i: int| 0 <= i < n - 1 ==> p[i] == s[i] {
        if s[n - 1] == p.last() {
            assert(p == s.subrange(0, n));
        } else if s[n - 1] == ':' {
            assert(lower == s.subrange(0, n));
        }
    }
}

/// Of two wildcards that reach a common selector, a shorter one reaches all that
/// the other does, and of two of the same length one that ends in a `,`.
proof fn lemma_wider(p: Seq<char>, q: Seq<char>, s: Seq<char>, x: Seq<char>)
    requires
        0 < p.len() <= q.len(),
        p.last() == ':' || p.last() == ',',
        q.last() == ':' || q.last() == ',',
        p.len() == q.len() ==> p.last() == ',' || q.last() == ':',
        reaches(p, s),
        reaches(q, s),
        reaches(q, x),
    ensures
        reaches(p, x),
{
    lemma_reach_chars(p, s);
    lemma_reach_chars(q, s);
    lemma_reach_chars(q, x);
    lemma_reach_chars(p, x);
}

/// Two candidates that reach a common selector are nested: one reaches all that
/// the other does.
proof fn lemma_nested(
    failed: Seq<Seq<char>>,
    passed: Seq<Seq<char>>,
    p: Seq<char>,
    q: Seq<char>,
    s: Seq<char>,
)
    requires
        candidate(failed, passed, p),
        candidate(failed, passed, q),
        reaches(p, s),
        reaches(q, s),
    ensures
        (forall|x: Seq<char>| #[trigger] reaches(p, x) ==> reaches(q, x)) || (forall|x: Seq<char>|
         #[trigger] reaches(q, x) ==> reaches(p, x)),
{
    let a = choose|a: int| 0 <= a < failed.len() && #[trigger] prefixes(failed[a]).contains(p);
    let b = choose|b: int| 0 <= b < failed.len() && #[trigger] prefixes(failed[b]).contains(q);
    lemma_prefix_shape(failed[a], p);
    lemma_prefix_shape(failed[b], q);
    if p.len() < q.len() || p.len() == q.len() && p.last() == ',' {
        assert forall|x: Seq<char>| #[trigger] reaches(q, x) implies reaches(p, x) by {
            lemma_wider(p, q, s, x);
        }
    } else {
        assert forall|x: Seq<char>| #[trigger] reaches(p, x) implies reaches(q, x) by {
            lemma_wider(q, p, s, x);
        }
    }
}

/// A wildcard that reaches all that another does, and something else besides,
/// reaches more.
proof fn lemma_reaches_more(list: Seq<Seq<char>>, p: Seq<char>, q: Seq<char>)
    requires
        forall|x: Seq<char>| #[trigger] reaches(p, x) ==> reaches(q, x),
    ensures
        reached(list, p).len() <= reached(list, q).len(),
        (exists|i: int| 0 <= i < list.len() && reaches(q, #[trigger] list[i]) && !reaches(p, list[i]))
            ==> reached(list, p).len() < reached(list, q).len(),
    decreases list.len(),
{
    reveal(Seq::filter);
    if list.len() > 0 {
        let head = list.drop_last();
        lemma_reaches_more(head, p, q);
        if exists|i: int|
            0 <= i < list.len() && reaches(q, #[trigger] list[i]) && !reaches(p, list[i]) {
            let i = choose|i: int|
                0 <= i < list.len() && reaches(q, #[trigger] list[i]) && !reaches(p, list[i]);
            if i < head.len() {
                assert(head[i] == list[i]);
            }
        }
    }
}

/// What a wildcard misses of a list without repetitions has none.
proof fn lemma_missed_distinct(list: Seq<Seq<char>>, p: Seq<char>)
    requires
        list.no_duplicates(),
    ensures
        missed(list, p).no_duplicates(),
    decreases list.len(),
{
    reveal(Seq::filter);
    if list.len() > 0 {
        let head = list.drop_last();
        lemma_missed_distinct(head, p);
        let pred = |s: Seq<char>| !reaches(p, s);
        let kept = missed(head, p);
        if kept.contains(list.last()) {
            head.lemma_filter_contains_rev(pred, list.last());
            let i = choose|i: int| 0 <= i < head.len() && head[i] == list.last();
            assert(list[i] == list[list.len() - 1]);
        }
        assert forall|i: int| 0 <= i < kept.len() implies kept[i] != list.last() by {
            assert(kept.contains(kept[i]));
        }
    }
}

/// Whether `name` names `s`: it is `s`, or an allowed wildcard that reaches it.
pub open spec fn names_it(
    failed: Seq<Seq<char>>,
    passed: Seq<Seq<char>>,
    name: Seq<char>,
    s: Seq<char>,
) -> bool {
    ||| failed.contains(name) && name == s
    ||| name.len() > 0 && name.last() == WILDCARD && candidate(failed, passed, name.drop_last())
        && reaches(name.drop_last(), s)
}

/// What names a selector that the best candidate reaches names nothing that the
/// best candidate misses: it would reach more.
proof fn lemma_name_is_spent(
    failed: Seq<Seq<char>>,
    passed: Seq<Seq<char>>,
    left: Seq<Seq<char>>,
    p: Seq<char>,
    name: Seq<char>,
    s: Seq<char>,
    t: Seq<char>,
)
    requires
        best(failed, passed, left, p),
        reaches(p, s),
        left.contains(t),
        !reaches(p, t),
        names_it(failed, passed, name, s),
    ensures
        !names_it(failed, passed, name, t),
{
    if names_it(failed, passed, name, t) {
        let q = name.drop_last();
        // A selector that is an allowed wildcard is reached by it as well.
        assert(name.len() > 0 ==> q == name.subrange(0, q.len() as int));
        assert(reaches(q, s) && reaches(q, t));
        lemma_nested(failed, passed, p, q, s);
        lemma_reaches_more(left, p, q);
        let i = choose|i: int| 0 <= i < left.len() && left[i] == t;
        assert(reaches(q, left[i]) && !reaches(p, left[i]));
        assert(beats(failed, left, p, q));
    }
}

/// Selectors that only their own texts name need a name each.
proof fn lemma_literals(left: Seq<Seq<char>>, names: Seq<Seq<char>>)
    requires
        left.no_duplicates(),
        forall|s: Seq<char>| #[trigger] left.contains(s) ==> names.contains(s),
    ensures
        left.len() <= names.len(),
{
    left.unique_seq_to_set();
    names.lemma_cardinality_of_set();
    vstd::seq_lib::seq_to_set_is_finite(names);
    assert forall|s: Seq<char>| left.to_set().contains(s) implies names.to_set().contains(s) by {
        assert(left.contains(s));
    }
    vstd::set_lib::lemma_len_subset(left.to_set(), names.to_set());
}

/// No fewer names than a cover has entries name all that it is to cover.
proof fn lemma_minimal(
    failed: Seq<Seq<char>>,
    passed: Seq<Seq<char>>,
    left: Seq<Seq<char>>,
    names: Seq<Seq<char>>,
)
    requires
        left.no_duplicates(),
        forall|s: Seq<char>| #[trigger]
            left.contains(s) ==> exists|k: int|
                0 <= k < names.len() && #[trigger] names_it(failed, passed, names[k], s),
    ensures
        cover(failed, passed, left).len() <= names.len(),
    decreases left.len(),
{
    if exists|p: Seq<char>| best(failed, passed, left, p) {
        let p = choose|p: Seq<char>| best(failed, passed, left, p);
        lemma_fewer(left, p);
        lemma_missed_distinct(left, p);
        let rest = missed(left, p);
        let pred = |s: Seq<char>| reaches(p, s);
        let s = reached(left, p)[0];
        left.lemma_filter_pred(pred, 0);
        assert(reached(left, p).contains(s));
        left.lemma_filter_contains_rev(pred, s);
        let spent = choose|k: int|
            0 <= k < names.len() && #[trigger] names_it(failed, passed, names[k], s);
        let others = names.remove(spent);
        assert forall|t: Seq<char>| #[trigger] rest.contains(t) implies exists|k: int|
            0 <= k < others.len() && #[trigger] names_it(failed, passed, others[k], t) by {
            let gone = |s: Seq<char>| !reaches(p, s);
            left.lemma_filter_contains_rev(gone, t);
            let i = choose|i: int| 0 <= i < rest.len() && rest[i] == t;
            left.lemma_filter_pred(gone, i);
            let k = choose|k: int|
                0 <= k < names.len() && #[trigger] names_it(failed, passed, names[k], t);
            lemma_name_is_spent(failed, passed, left, p, names[spent], s, t);
            if k < spent {
                assert(others[k] == names[k]);
            } else {
                assert(others[k - 1] == names[k]);
            }
        }
        lemma_minimal(failed, passed, rest, others);
    } else {
        assert forall|s: Seq<char>| #[trigger] left.contains(s) implies names.contains(s) by {
            let k = choose|k: int|
                0 <= k < names.len() && #[trigger] names_it(failed, passed, names[k], s);
            let q = names[k].drop_last();
            if names[k] != s {
                let pred = |s: Seq<char>| reaches(q, s);
                let i = choose|i: int| 0 <= i < left.len() && left[i] == s;
                left.lemma_filter_contains(pred, i);
                law_best_exists(failed, passed, left, q);
            }
        }
        lemma_literals(left, names);
    }
}

/// A cover is minimal: no fewer names than it has entries, be they failing
/// selectors or wildcards that may be offered, name every failing selector.
pub proof fn law_cover_is_minimal(
    failed: Seq<Seq<char>>,
    passed: Seq<Seq<char>>,
    names: Seq<Seq<char>>,
)
    requires
        ascending(failed),
        forall|s: Seq<char>| #[trigger]
            failed.contains(s) ==> exists|k: int|
                0 <= k < names.len() && #[trigger] names_it(failed, passed, names[k], s),
    ensures
        cover(failed, passed, failed).len() <= names.len(),
{
    assert forall|i: int, j: int| 0 <= i < j < failed.len() implies failed[i] != failed[j] by {
        lemma_irreflexive(failed[i]);
    }
    lemma_minimal(failed, passed, failed, names);
}

/// Every selector is named by the entry that lists it, so that the entries of a
/// cover are themselves such names.
pub proof fn law_cover_names_what_it_lists(
    failed: Seq<Seq<char>>,
    passed: Seq<Seq<char>>,
    left: Seq<Seq<char>>,
    i: int,
    s: Seq<char>,
)
    requires
        forall|t: Seq<char>| #[trigger] left.contains(t) ==> failed.contains(t),
        0 <= i < cover(failed, passed, left).len(),
        cover(failed, passed, left)[i].1.contains(s),
    ensures
        names_it(failed, passed, cover(failed, passed, left)[i].0, s),
    decreases left.len(),
{
    if exists|p: Seq<char>| best(failed, passed, left, p) {
        let p = choose|p: Seq<char>| best(failed, passed, left, p);
        lemma_fewer(left, p);
        if i > 0 {
            let rest = missed(left, p);
            let gone = |s: Seq<char>| !reaches(p, s);
            assert forall|t: Seq<char>| #[trigger] rest.contains(t) implies failed.contains(t) by {
                left.lemma_filter_contains_rev(gone, t);
            }
            law_cover_names_what_it_lists(failed, passed, rest, i - 1, s);
        } else {
            let pred = |s: Seq<char>| reaches(p, s);
            let k = choose|k: int| 0 <= k < reached(left, p).len() && reached(left, p)[k] == s;
            left.lemma_filter_pred(pred, k);
            assert(p.push(WILDCARD).drop_last() == p);
        }
    } else {
        assert(left.contains(left[i]));
    }
}

} // verus!
