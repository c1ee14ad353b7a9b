//! Wildcard patterns that cover a set of selectors and spare another.

use crate::coverage::{coverage, credits, lemma_credited, open_prefixes};
use crate::index::{kept, lemma_kept_all, lemma_kept_filtered, lemma_kept_listed, lists};
use crate::order::{ascending, lemma_asymmetric, precedes};
use crate::pattern::WILDCARD;
use crate::prefixes::{build_prefix_set, lies_in, prefixes};
use crate::set::StringSet;
use crate::text::texts;
use vstd::prelude::*;
use vstd::utf8::encode_utf8;

verus! {

/// Whether the wildcard `p*` reaches `s`: `s` continues `p`, or, where `p` ends
/// in a `,`, continues `p` with that `,` made a `:`.
pub open spec fn reaches(p: Seq<char>, s: Seq<char>) -> bool {
    ||| p.is_prefix_of(s)
    ||| p.len() > 0 && p.last() == ',' && p.drop_last().push(':').is_prefix_of(s)
}

/// Those of `list` that the wildcard `p*` reaches.
pub open spec fn reached(list: Seq<Seq<char>>, p: Seq<char>) -> Seq<Seq<char>> {
    list.filter(|s: Seq<char>| reaches(p, s))
}

/// Those of `list` that the wildcard `p*` does not reach.
pub open spec fn missed(list: Seq<Seq<char>>, p: Seq<char>) -> Seq<Seq<char>> {
    list.filter(|s: Seq<char>| !reaches(p, s))
}

/// Whether `p*` may be offered: `p` is a prefix of a selector in `failed` at a
/// level boundary, and no selector in `passed` lies in the level it names.
pub open spec fn candidate(
    failed: Seq<Seq<char>>,
    passed: Seq<Seq<char>>,
    p: Seq<char>,
) -> bool {
    &&& exists|i: int| 0 <= i < failed.len() && #[trigger] prefixes(failed[i]).contains(p)
    &&& forall|j: int| 0 <= j < passed.len() ==> !#[trigger] lies_in(passed[j], p)
}

/// Whether, of two candidates that gain equally much, `p` is taken: the one
/// that reaches more of all selectors, then the longer one in UTF-8, so that
/// covering one stray selector doesn't suggest a wildcard broad enough to
/// swallow half the CTS, and at last the first in order.
pub open spec fn preferred(failed: Seq<Seq<char>>, p: Seq<char>, q: Seq<char>) -> bool {
    let reach_p = reached(failed, p).len();
    let reach_q = reached(failed, q).len();
    let len_p = encode_utf8(p).len();
    let len_q = encode_utf8(q).len();
    ||| reach_p > reach_q
    ||| reach_p == reach_q && len_p > len_q
    ||| reach_p == reach_q && len_p == len_q && precedes(p, q)
}

/// Whether `p` is taken before `q` to cover `left`: it reaches more of it, or as
/// much and is preferred.
pub open spec fn beats(
    failed: Seq<Seq<char>>,
    left: Seq<Seq<char>>,
    p: Seq<char>,
    q: Seq<char>,
) -> bool {
    ||| reached(left, p).len() > reached(left, q).len()
    ||| reached(left, p).len() == reached(left, q).len() && preferred(failed, p, q)
}

/// Whether `p` is the candidate that reaches most of `left`.
pub open spec fn best(
    failed: Seq<Seq<char>>,
    passed: Seq<Seq<char>>,
    left: Seq<Seq<char>>,
    p: Seq<char>,
) -> bool {
    &&& candidate(failed, passed, p)
    &&& reached(left, p).len() > 0
    &&& forall|q: Seq<char>| #[trigger]
        candidate(failed, passed, q) && q != p ==> beats(failed, left, p, q)
}

/// The greedy cover of `left`: the best wildcard with what it reaches, then the
/// cover of the rest; where no candidate reaches anything, each selector by
/// itself.
pub open spec fn cover(
    failed: Seq<Seq<char>>,
    passed: Seq<Seq<char>>,
    left: Seq<Seq<char>>,
) -> Seq<(Seq<char>, Seq<Seq<char>>)>
    decreases left.len(),
{
    if exists|p: Seq<char>| best(failed, passed, left, p) {
        let p = choose|p: Seq<char>| best(failed, passed, left, p);
        proof {
            lemma_fewer(left, p);
        }
        seq![(p.push(WILDCARD), reached(left, p))] + cover(failed, passed, missed(left, p))
    } else {
        left.map_values(|s: Seq<char>| (s, seq![s]))
    }
}

/// What a list of patterns with their selectors holds.
pub open spec fn entries(list: Seq<(String, Vec<String>)>) -> Seq<(Seq<char>, Seq<Seq<char>>)> {
    list.map_values(|e: (String, Vec<String>)| (e.0@, texts(e.1@)))
}

/// Between them the two filters keep everything.
pub proof fn lemma_fewer(list: Seq<Seq<char>>, p: Seq<char>)
    ensures
        reached(list, p).len() + missed(list, p).len() == list.len(),
    decreases list.len(),
{
    reveal(Seq::filter);
    if list.len() > 0 {
        lemma_fewer(list.drop_last(), p);
    }
}

/// There is at most one best candidate.
pub proof fn lemma_best_unique(
    failed: Seq<Seq<char>>,
    passed: Seq<Seq<char>>,
    left: Seq<Seq<char>>,
    p: Seq<char>,
    q: Seq<char>,
)
    requires
        best(failed, passed, left, p),
        best(failed, passed, left, q),
    ensures
        p == q,
{
    if p != q {
        if precedes(p, q) {
            lemma_asymmetric(p, q);
        }
    }
}

/// The flags as a condition on indices.
spec fn live(alive: Seq<bool>) -> spec_fn(int) -> bool {
    |i: int| alive[i]
}

/// The flags and a condition together.
spec fn both(f: spec_fn(int) -> bool, alive: Seq<bool>) -> spec_fn(int) -> bool {
    |i: int| f(i) && alive[i]
}

/// The listed indices that are flagged.
fn flagged(idx: &[usize], alive: &[bool], Ghost(f): Ghost<spec_fn(int) -> bool>) -> (out: Vec<
    usize,
>)
    requires
        lists(idx@, alive@.len() as int, f),
    ensures
        lists(out@, alive@.len() as int, both(f, alive@)),
{
    let mut out: Vec<usize> = Vec::new();
    let mut a: usize = 0;
    while a < idx.len()
        invariant
            lists(idx@, alive@.len() as int, f),
            a <= idx@.len(),
            forall|x: int, y: int| 0 <= x < y < out@.len() ==> out@[x] < out@[y],
            forall|x: int|
                0 <= x < out@.len() ==> {
                    &&& (#[trigger] out@[x]) < alive@.len()
                    &&& f(out@[x] as int)
                    &&& alive@[out@[x] as int]
                    &&& a < idx@.len() ==> out@[x] < idx@[a as int]
                },
            forall|b: int|
                0 <= b < a && alive@[#[trigger] idx@[b] as int] ==> out@.contains(idx@[b]),
        decreases idx@.len() - a,
    {
        let i = idx[a];
        let ghost before = out@;
        assert(i < alive@.len() && f(i as int));
        if alive[i] {
            out.push(i);
        }
        proof {
            assert forall|b: int|
                0 <= b < a + 1 && alive@[#[trigger] idx@[b] as int] implies out@.contains(
                idx@[b],
            ) by {
                if b < a {
                    let x = choose|x: int| 0 <= x < before.len() && before[x] == idx@[b];
                    assert(out@[x] == idx@[b]);
                } else {
                    assert(out@[before.len() as int] == i);
                }
            }
        }
        a = a + 1;
    }
    proof {
        let g = both(f, alive@);
        assert(alive.len() == alive@.len());
        assert forall|i: int| 0 <= i < alive@.len() && #[trigger] g(i) implies out@.contains(
            i as usize,
        ) by {
            assert(f(i));
            let b = choose|b: int| 0 <= b < idx@.len() && idx@[b] == i as usize;
            assert(alive@[idx@[b] as int]);
        }
    }
    out
}

/// What the lists of indices say of the reach of a candidate.
proof fn lemma_reach(
    failed: Seq<Seq<char>>,
    passed: Seq<Seq<char>>,
    alive: Seq<bool>,
    p: Seq<char>,
    cover: Seq<usize>,
    gain: Seq<usize>,
)
    requires
        candidate(failed, passed, p),
        alive.len() == failed.len() <= usize::MAX,
        lists(cover, failed.len() as int, credits(failed, p)),
        lists(gain, failed.len() as int, both(credits(failed, p), alive)),
    ensures
        reached(failed, p).len() == cover.len(),
        reached(kept(failed, failed.len() as int, live(alive)), p) == gain.map_values(
            |i: usize| failed[i as int],
        ),
{
    let n = failed.len() as int;
    let t = choose|t: int| 0 <= t < failed.len() && #[trigger] prefixes(failed[t]).contains(p);
    let f = credits(failed, p);
    let pred = |s: Seq<char>| reaches(p, s);
    assert forall|i: int| 0 <= i < n implies #[trigger] f(i) == pred(failed[i]) by {
        lemma_credited(failed[t], p, failed[i]);
    }
    let every = |i: int| true;
    lemma_kept_all(failed, n, every);
    assert(failed.take(n) == failed);
    lemma_kept_filtered(failed, n, every, pred, f);
    lemma_kept_listed(failed, n, f, cover);
    let g = both(f, alive);
    assert forall|i: int| 0 <= i < n implies #[trigger] g(i) == (live(alive)(i) && pred(
        failed[i],
    )) by {
        assert(f(i) == pred(failed[i]));
    }
    lemma_kept_filtered(failed, n, live(alive), pred, g);
    lemma_kept_listed(failed, n, g, gain);
}

/// The best candidate for what is still flagged, and the indices of what it
/// reaches of it.
fn pick(
    names: &[String],
    covers: &[Vec<usize>],
    alive: &[bool],
    Ghost(failed): Ghost<Seq<Seq<char>>>,
    Ghost(passed): Ghost<Seq<Seq<char>>>,
) -> (picked: Option<(usize, Vec<usize>)>)
    requires
        alive@.len() == failed.len(),
        covers@.len() == names@.len(),
        ascending(texts(names@)),
        forall|p: Seq<char>| #[trigger]
            candidate(failed, passed, p) <==> texts(names@).contains(p),
        forall|j: int|
            0 <= j < covers@.len() ==> lists(
                (#[trigger] covers@[j])@,
                failed.len() as int,
                credits(failed, texts(names@)[j]),
            ),
    ensures
        match picked {
            Some((j, gain)) => {
                &&& j < names@.len()
                &&& best(
                    failed,
                    passed,
                    kept(failed, failed.len() as int, live(alive@)),
                    names@[j as int]@,
                )
                &&& lists(
                    gain@,
                    failed.len() as int,
                    both(credits(failed, names@[j as int]@), alive@),
                )
            },
            None => forall|p: Seq<char>|
                !#[trigger] best(
                    failed,
                    passed,
                    kept(failed, failed.len() as int, live(alive@)),
                    p,
                ),
        },
{
    let ghost keys = texts(names@);
    let ghost left = kept(failed, failed.len() as int, live(alive@));
    let mut picked: Option<(usize, Vec<usize>)> = None;
    let mut j: usize = 0;
    while j < names.len()
        invariant
            alive@.len() == failed.len(),
            keys == texts(names@),
            left == kept(failed, failed.len() as int, live(alive@)),
            covers@.len() == names@.len(),
            ascending(keys),
            forall|p: Seq<char>| #[trigger] candidate(failed, passed, p) <==> keys.contains(p),
            forall|j: int|
                0 <= j < covers@.len() ==> lists(
                    (#[trigger] covers@[j])@,
                    failed.len() as int,
                    credits(failed, keys[j]),
                ),
            j <= names@.len(),
            match picked {
                Some((b, gain)) => {
                    &&& b < j
                    &&& gain@.len() > 0
                    &&& reached(left, keys[b as int]).len() == gain@.len()
                    &&& lists(
                        gain@,
                        failed.len() as int,
                        both(credits(failed, keys[b as int]), alive@),
                    )
                    &&& forall|k: int|
                        0 <= k < j && k != b ==> beats(
                            failed,
                            left,
                            keys[b as int],
                            #[trigger] keys[k],
                        )
                },
                None => forall|k: int|
                    0 <= k < j ==> reached(left, #[trigger] keys[k]).len() == 0,
            },
        decreases names@.len() - j,
    {
        let ghost key = keys[j as int];
        let gain = flagged(&covers[j], alive, Ghost(credits(failed, key)));
        proof {
            assert(alive.len() == alive@.len());
            assert(keys.contains(key));
            assert(candidate(failed, passed, key));
            lemma_reach(failed, passed, alive@, key, covers@[j as int]@, gain@);
        }
        let wins = match &picked {
            None => gain.len() > 0,
            Some((b, most)) => {
                let ghost rival = keys[*b as int];
                proof {
                    assert(keys.contains(rival));
                    assert(candidate(failed, passed, rival));
                    lemma_reach(failed, passed, alive@, rival, covers@[*b as int]@, most@);
                    assert(precedes(rival, key));
                }
                let len = names[j].as_str().as_bytes().len();
                let rival_len = names[*b].as_str().as_bytes().len();
                let wide = covers[j].len();
                let rival_wide = covers[*b].len();
                gain.len() > most.len() || gain.len() == most.len() && (wide > rival_wide || wide
                    == rival_wide && len > rival_len)
            },
        };
        if wins {
            picked = Some((j, gain));
        }
        j = j + 1;
    }
    proof {
        match picked {
            Some((b, _)) => {
                let p = keys[b as int];
                assert(keys.contains(p));
                assert forall|q: Seq<char>| #[trigger]
                    candidate(failed, passed, q) && q != p implies beats(failed, left, p, q) by {
                    let k = choose|k: int| 0 <= k < keys.len() && keys[k] == q;
                    assert(beats(failed, left, p, keys[k]));
                }
            },
            None => {
                assert forall|p: Seq<char>| !#[trigger] best(failed, passed, left, p) by {
                    if best(failed, passed, left, p) {
                        let k = choose|k: int| 0 <= k < keys.len() && keys[k] == p;
                        assert(reached(left, keys[k]).len() == 0);
                    }
                }
            },
        }
    }
    picked
}

/// Greedily cover `failed` with as few wildcard patterns as possible, without
/// any of them matching a selector in `passed`.
///
/// Returns each pattern with the selectors it covers, most-covering first. That
/// there are as few as possible is
/// [`law_cover_is_minimal`](crate::cover_laws::law_cover_is_minimal).
pub fn find_minimal_wildcards(failed: &StringSet, passed: &StringSet) -> (result: Vec<
    (String, Vec<String>),
>)
    ensures
        entries(result@) == cover(failed@, passed@, failed@),
{
    let items = failed.as_slice();
    let taken = build_prefix_set(passed);
    let keys = open_prefixes(items, &taken);
    let covers = coverage(items, &keys);
    let names = keys.as_slice();
    let count = items.len();
    let ghost all = failed@;
    let ghost n = all.len() as int;
    proof {
        assert forall|p: Seq<char>| #[trigger]
            candidate(all, passed@, p) <==> texts(names@).contains(p) by {
            assert(keys@.contains(p) == texts(names@).contains(p));
        }
    }
    let mut alive: Vec<bool> = Vec::new();
    while alive.len() < count
        invariant
            alive@.len() <= count,
            forall|i: int| 0 <= i < alive@.len() ==> alive@[i],
        decreases count - alive@.len(),
    {
        alive.push(true);
    }
    let mut result: Vec<(String, Vec<String>)> = Vec::new();
    proof {
        lemma_kept_all(all, n, live(alive@));
        assert(all.take(n) == all);
        assert(entries(result@) + cover(all, passed@, all) == cover(all, passed@, all));
    }
    loop
        invariant_except_break
            cover(all, passed@, all) == entries(result@) + cover(
                all,
                passed@,
                kept(all, n, live(alive@)),
            ),
        invariant
            all == texts(items@),
            count == items@.len(),
            n == all.len(),
            alive@.len() == n,
            covers@.len() == names@.len(),
            ascending(texts(names@)),
            forall|p: Seq<char>| #[trigger]
                candidate(all, passed@, p) <==> texts(names@).contains(p),
            forall|j: int|
                0 <= j < covers@.len() ==> lists(
                    (#[trigger] covers@[j])@,
                    n,
                    credits(all, texts(names@)[j]),
                ),
        ensures
            cover(all, passed@, all) == entries(result@),
        decreases kept(all, n, live(alive@)).len(),
    {
        let ghost left = kept(all, n, live(alive@));
        let ghost before = entries(result@);
        match pick(names, &covers, &alive, Ghost(all), Ghost(passed@)) {
            Some((j, gain)) => {
                let ghost p = names@[j as int]@;
                let ghost flags = alive@;
                let covered = chosen(items, &gain);
                let pattern = names[j].clone().concat("*");
                unflag(&mut alive, &gain);
                result.push((pattern, covered));
                proof {
                    reveal_strlit("*");
                    assert(pattern@ == p.push(WILDCARD));
                    assert(texts(names@)[j as int] == p);
                    lemma_round(all, passed@, flags, alive@, p, covers@[j as int]@, gain@);
                    let q = choose|q: Seq<char>| best(all, passed@, left, q);
                    lemma_best_unique(all, passed@, left, p, q);
                    lemma_fewer(left, p);
                    let rest = cover(all, passed@, missed(left, p));
                    assert(entries(result@) == before.push((pattern@, texts(covered@))));
                    assert(before + (seq![(pattern@, texts(covered@))] + rest) == before.push(
                        (pattern@, texts(covered@)),
                    ) + rest);
                }
            },
            None => {
                // Nothing left that we're allowed to generalize; name the
                // stragglers individually.
                name_each(items, &alive, &mut result);
                break;
            },
        }
    }
    result
}

/// The items at the given indices.
fn chosen(items: &[String], idx: &[usize]) -> (out: Vec<String>)
    requires
        forall|a: int| 0 <= a < idx@.len() ==> (#[trigger] idx@[a]) < items@.len(),
    ensures
        texts(out@) == idx@.map_values(|i: usize| texts(items@)[i as int]),
{
    let mut out: Vec<String> = Vec::new();
    let mut a: usize = 0;
    while a < idx.len()
        invariant
            forall|a: int| 0 <= a < idx@.len() ==> (#[trigger] idx@[a]) < items@.len(),
            a <= idx@.len(),
            out@.len() == a,
            forall|b: int| 0 <= b < a ==> (#[trigger] out@[b])@ == items@[idx@[b] as int]@,
        decreases idx@.len() - a,
    {
        out.push(items[idx[a]].clone());
        a = a + 1;
    }
    assert(texts(out@) == idx@.map_values(|i: usize| texts(items@)[i as int]));
    out
}

/// Takes the flags at the given indices away.
fn unflag(alive: &mut Vec<bool>, idx: &[usize])
    requires
        forall|a: int| 0 <= a < idx@.len() ==> (#[trigger] idx@[a]) < old(alive)@.len(),
    ensures
        final(alive)@.len() == old(alive)@.len(),
        forall|i: int|
            0 <= i < final(alive)@.len() ==> #[trigger] final(alive)@[i] == (old(alive)@[i]
                && !idx@.contains(i as usize)),
{
    let ghost before = alive@;
    let mut a: usize = 0;
    assert(alive.len() == alive@.len());
    while a < idx.len()
        invariant
            before == old(alive)@,
            before.len() <= usize::MAX,
            alive@.len() == before.len(),
            forall|a: int| 0 <= a < idx@.len() ==> (#[trigger] idx@[a]) < before.len(),
            a <= idx@.len(),
            forall|i: int|
                0 <= i < alive@.len() ==> #[trigger] alive@[i] == (before[i] && !idx@.take(
                    a as int,
                ).contains(i as usize)),
        decreases idx@.len() - a,
    {
        let ghost entry = alive@;
        alive.set(idx[a], false);
        proof {
            let now = idx@.take(a + 1);
            let then = idx@.take(a as int);
            assert(now == then.push(idx@[a as int]));
            assert forall|i: int| 0 <= i < alive@.len() implies #[trigger] alive@[i] == (before[i]
                && !now.contains(i as usize)) by {
                if i == idx@[a as int] {
                    assert(now[a as int] == i as usize);
                } else {
                    assert(alive@[i] == entry[i]);
                    if then.contains(i as usize) {
                        let b = choose|b: int| 0 <= b < then.len() && then[b] == i as usize;
                        assert(now[b] == i as usize);
                    }
                }
            }
        }
        a = a + 1;
    }
    assert(idx@.take(a as int) == idx@);
}

/// What one round of the cover leaves flagged is what the pick does not reach.
proof fn lemma_round(
    failed: Seq<Seq<char>>,
    passed: Seq<Seq<char>>,
    before: Seq<bool>,
    after: Seq<bool>,
    p: Seq<char>,
    cover: Seq<usize>,
    gain: Seq<usize>,
)
    requires
        candidate(failed, passed, p),
        before.len() == failed.len() <= usize::MAX,
        after.len() == before.len(),
        lists(cover, failed.len() as int, credits(failed, p)),
        lists(gain, failed.len() as int, both(credits(failed, p), before)),
        forall|i: int|
            0 <= i < after.len() ==> #[trigger] after[i] == (before[i] && !gain.contains(
                i as usize,
            )),
    ensures
        reached(kept(failed, failed.len() as int, live(before)), p) == gain.map_values(
            |i: usize| failed[i as int],
        ),
        missed(kept(failed, failed.len() as int, live(before)), p) == kept(
            failed,
            failed.len() as int,
            live(after),
        ),
{
    let n = failed.len() as int;
    lemma_reach(failed, passed, before, p, cover, gain);
    let t = choose|t: int| 0 <= t < failed.len() && #[trigger] prefixes(failed[t]).contains(p);
    let pred = |s: Seq<char>| !reaches(p, s);
    let g = both(credits(failed, p), before);
    assert forall|i: int| 0 <= i < n implies #[trigger] live(after)(i) == (live(before)(i) && pred(
        failed[i],
    )) by {
        lemma_credited(failed[t], p, failed[i]);
        assert(after[i] == (before[i] && !gain.contains(i as usize)));
        if gain.contains(i as usize) {
            let a = choose|a: int| 0 <= a < gain.len() && gain[a] == i as usize;
            assert(g(gain[a] as int));
        } else {
            assert(!g(i));
        }
    }
    lemma_kept_filtered(failed, n, live(before), pred, live(after));
}

/// Adds each flagged item by itself.
fn name_each(items: &[String], alive: &[bool], result: &mut Vec<(String, Vec<String>)>)
    requires
        alive@.len() == items@.len(),
    ensures
        entries(final(result)@) == entries(old(result)@) + kept(
            texts(items@),
            items@.len() as int,
            live(alive@),
        ).map_values(|s: Seq<char>| (s, seq![s])),
{
    let ghost all = texts(items@);
    let ghost before = entries(result@);
    let ghost single = |s: Seq<char>| (s, seq![s]);
    let mut i: usize = 0;
    assert(kept(all, 0, live(alive@)).map_values(single) == Seq::<
        (Seq<char>, Seq<Seq<char>>),
    >::empty());
    while i < items.len()
        invariant
            alive@.len() == items@.len(),
            all == texts(items@),
            single == (|s: Seq<char>| (s, seq![s])),
            i <= items@.len(),
            entries(result@) == before + kept(all, i as int, live(alive@)).map_values(single),
        decreases items@.len() - i,
    {
        if alive[i] {
            let ghost entry = entries(result@);
            let list = vec![items[i].clone()];
            let ghost item = items@[i as int]@;
            assert(texts(list@) == seq![item]);
            result.push((items[i].clone(), list));
            proof {
                let so_far = kept(all, i as int, live(alive@));
                assert(kept(all, i + 1, live(alive@)) == so_far.push(item));
                assert(so_far.push(item).map_values(single) == so_far.map_values(single).push(
                    (item, seq![item]),
                ));
                assert(entries(result@) == entry.push((item, seq![item])));
                assert(before + so_far.map_values(single).push((item, seq![item])) == (before
                    + so_far.map_values(single)).push((item, seq![item])));
            }
        }
        i = i + 1;
    }
}

} // verus!
