//! Which selectors each candidate wildcard reaches.

use crate::index::{lemma_lists_extend, lemma_lists_push, lemma_lists_same, lists};
use crate::order::{lemma_asymmetric, precedes};
use crate::prefixes::{
    cut_at, file_path, generate_prefixes, law_prefixes_are_the_cuts, level, one_colon, prefixes,
};
use crate::set::StringSet;
use crate::text::{chars_of, texts};
use crate::wildcards::reaches;
use vstd::prelude::*;

verus! {

/// Whether `p` is a beginning of `s` that ends in a `:`, or one that ends
/// within or at the end of its file path with a `,` behind.
pub open spec fn credited(s: Seq<char>, p: Seq<char>) -> bool {
    exists|k: int| 0 <= k < s.len() && #[trigger] credited_at(s, k, p)
}

/// Whether `p` is such a beginning, and ends before index `k`.
pub open spec fn credited_at(s: Seq<char>, k: int, p: Seq<char>) -> bool {
    ||| s[k] == ':' && p == s.take(k).push(':')
    ||| (s[k] == ':' || s[k] == ',') && one_colon(s.take(k)) && p == s.take(k).push(',')
}

/// What a prefix that was cut from a selector looks like.
pub proof fn lemma_prefix_shape(t: Seq<char>, p: Seq<char>)
    requires
        prefixes(t).contains(p),
    ensures
        p.len() > 0,
        p.last() == ':' || p.last() == ',' && one_colon(p.drop_last()),
{
    law_prefixes_are_the_cuts(t, p);
    let k = choose|k: int| 0 <= k < t.len() && #[trigger] cut_at(t, k, p);
    assert(t.take(k + 1) == t.take(k).push(t[k]));
    assert(t.take(k + 1).drop_last() == t.take(k));
}

/// A wildcard made of a cut reaches `s` just where the cut is one of the
/// prefixes credited to `s`.
pub proof fn lemma_credited(t: Seq<char>, p: Seq<char>, s: Seq<char>)
    requires
        prefixes(t).contains(p),
    ensures
        reaches(p, s) <==> credited(s, p),
{
    lemma_prefix_shape(t, p);
    let stem = p.drop_last();
    let k = stem.len() as int;
    assert(p == stem.push(p.last()));
    if reaches(p, s) {
        if p.is_prefix_of(s) {
            assert(s[k] == p[k]);
        } else {
            assert(s[k] == p.drop_last().push(':')[k]);
        }
        assert(s.take(k) == stem);
        assert(credited_at(s, k, p));
    }
    if credited(s, p) {
        let j = choose|j: int| 0 <= j < s.len() && #[trigger] credited_at(s, j, p);
        assert(s.take(j) == stem);
        assert(s.take(j + 1) == stem.push(s[j]));
        assert(stem.push(s[j]) == s.subrange(0, j + 1));
    }
}

/// The prefixes credited to a selector.
fn credited_prefixes(selector: &str) -> (list: Vec<String>)
    ensures
        forall|p: Seq<char>| #[trigger]
            texts(list@).contains(p) <==> credited(selector@, p),
{
    let text = chars_of(selector);
    let ghost s = selector@;
    let (start, end) = file_path(&text);
    let mut list: Vec<String> = Vec::new();
    proof {
        reveal_strlit(",");
        reveal_strlit(":");
    }
    let mut k: usize = 0;
    while k < text.len()
        invariant
            s == selector@,
            text@ == s,
            ":"@ == seq![':'],
            ","@ == seq![','],
            k <= s.len(),
            forall|k: int|
                0 <= k <= s.len() ==> (#[trigger] one_colon(s.take(k)) <==> start <= k <= end),
            forall|p: Seq<char>| #[trigger]
                texts(list@).contains(p) <==> exists|j: int|
                    0 <= j < k && #[trigger] credited_at(s, j, p),
        decreases s.len() - k,
    {
        let ghost entry = texts(list@);
        let ghost here = s.take(k as int);
        assert(here + ":"@ == here.push(':'));
        assert(here + ","@ == here.push(','));
        assert(one_colon(here) <==> start <= k <= end);
        if text[k] == ':' {
            push_text(&mut list, level(selector, k, ":"));
        }
        if (text[k] == ':' || text[k] == ',') && start <= k && k <= end {
            push_text(&mut list, level(selector, k, ","));
        }
        proof {
            assert forall|p: Seq<char>| #[trigger] texts(list@).contains(p) <==> exists|j: int|
                0 <= j < k + 1 && #[trigger] credited_at(s, j, p) by {
                assert(texts(list@).contains(p) <==> entry.contains(p) || credited_at(
                    s,
                    k as int,
                    p,
                ));
            }
        }
        k = k + 1;
    }
    list
}

/// Adds `text` at the end of `list`.
fn push_text(list: &mut Vec<String>, text: String)
    ensures
        texts(final(list)@) == texts(old(list)@).push(text@),
        forall|p: Seq<char>| #[trigger]
            texts(final(list)@).contains(p) <==> texts(old(list)@).contains(p) || p == text@,
{
    let ghost before = texts(list@);
    list.push(text);
    proof {
        assert(texts(list@) == before.push(text@));
        assert forall|p: Seq<char>| #[trigger] texts(list@).contains(p) <==> before.contains(p)
            || p == text@ by {
            if before.contains(p) {
                let i = choose|i: int| 0 <= i < before.len() && before[i] == p;
                assert(texts(list@)[i] == p);
            }
            assert(texts(list@)[before.len() as int] == text@);
        }
    }
}

/// The prefixes of `items` that are not in `taken`.
pub fn open_prefixes(items: &[String], taken: &StringSet) -> (keys: StringSet)
    ensures
        forall|p: Seq<char>| #[trigger]
            keys@.contains(p) <==> !taken@.contains(p) && exists|i: int|
                0 <= i < items@.len() && #[trigger] prefixes(texts(items@)[i]).contains(p),
{
    let ghost all = texts(items@);
    let mut keys = StringSet::new();
    let mut i: usize = 0;
    while i < items.len()
        invariant
            all == texts(items@),
            i <= items@.len(),
            forall|p: Seq<char>| #[trigger]
                keys@.contains(p) <==> !taken@.contains(p) && exists|k: int|
                    0 <= k < i && #[trigger] prefixes(all[k]).contains(p),
        decreases items@.len() - i,
    {
        let ghost before = keys@;
        let list = generate_prefixes(&items[i]);
        let ghost cuts = texts(list@);
        assert(cuts == prefixes(all[i as int]));
        let mut m: usize = 0;
        while m < list.len()
            invariant
                cuts == texts(list@),
                m <= list@.len(),
                forall|p: Seq<char>| #[trigger]
                    keys@.contains(p) <==> before.contains(p) || !taken@.contains(p)
                        && cuts.take(m as int).contains(p),
            decreases list@.len() - m,
        {
            let ghost entry = keys@;
            let ghost cut = cuts[m as int];
            assert(cuts.take(m + 1) == cuts.take(m as int).push(cut));
            if !taken.contains(&list[m]) {
                keys.insert(list[m].clone());
            }
            proof {
                assert forall|p: Seq<char>| #[trigger] keys@.contains(p) <==> before.contains(p)
                    || !taken@.contains(p) && cuts.take(m + 1).contains(p) by {
                    assert(keys@.to_set().contains(p) == keys@.contains(p));
                    assert(entry.to_set().contains(p) == entry.contains(p));
                    if cuts.take(m as int).contains(p) {
                        let a = choose|a: int| 0 <= a < m && cuts.take(m as int)[a] == p;
                        assert(cuts.take(m + 1)[a] == p);
                    }
                    assert(cuts.take(m + 1)[m as int] == cut);
                }
            }
            m = m + 1;
        }
        proof {
            assert(cuts.take(cuts.len() as int) == cuts);
            assert forall|p: Seq<char>| #[trigger] keys@.contains(p) <==> !taken@.contains(p)
                && exists|k: int| 0 <= k < i + 1 && #[trigger] prefixes(all[k]).contains(p) by {
                assert(keys@.contains(p) <==> before.contains(p) || !taken@.contains(p)
                    && prefixes(all[i as int]).contains(p));
            }
        }
        i = i + 1;
    }
    keys
}

/// Of which members of `all` the prefix `p` is credited.
pub open spec fn credits(all: Seq<Seq<char>>, p: Seq<char>) -> spec_fn(int) -> bool {
    |i: int| credited(all[i], p)
}

/// The same below index `n`, and at `n` whether `p` is among `seen`.
pub open spec fn credits_seen(
    all: Seq<Seq<char>>,
    p: Seq<char>,
    n: int,
    seen: Seq<Seq<char>>,
) -> spec_fn(int) -> bool {
    |i: int|
        if i < n {
            credited(all[i], p)
        } else {
            seen.contains(p)
        }
}

/// For each of `keys`, the indices of the items to which it is credited.
pub fn coverage(items: &[String], keys: &StringSet) -> (covers: Vec<Vec<usize>>)
    ensures
        covers@.len() == keys@.len(),
        forall|j: int|
            0 <= j < covers@.len() ==> lists(
                (#[trigger] covers@[j])@,
                items@.len() as int,
                credits(texts(items@), keys@[j]),
            ),
{
    let ghost all = texts(items@);
    let mut covers: Vec<Vec<usize>> = Vec::new();
    let count = keys.len();
    while covers.len() < count
        invariant
            count == keys@.len(),
            covers@.len() <= count,
            forall|j: int|
                0 <= j < covers@.len() ==> lists(
                    (#[trigger] covers@[j])@,
                    0,
                    credits(all, keys@[j]),
                ),
        decreases count - covers@.len(),
    {
        covers.push(Vec::new());
    }
    let mut i: usize = 0;
    while i < items.len()
        invariant
            all == texts(items@),
            i <= items@.len(),
            covers@.len() == keys@.len(),
            forall|j: int|
                0 <= j < covers@.len() ==> lists(
                    (#[trigger] covers@[j])@,
                    i as int,
                    credits(all, keys@[j]),
                ),
        decreases items@.len() - i,
    {
        assert(i < items.len());
        let names = credited_prefixes(&items[i]);
        let ghost seen = texts(names@);
        proof {
            assert forall|j: int| 0 <= j < covers@.len() implies lists(
                (#[trigger] covers@[j])@,
                i + 1,
                credits_seen(all, keys@[j], i as int, seen.take(0)),
            ) by {
                lemma_lists_extend(
                    covers@[j]@,
                    i as int,
                    credits(all, keys@[j]),
                    credits_seen(all, keys@[j], i as int, seen.take(0)),
                );
            }
        }
        let mut m: usize = 0;
        while m < names.len()
            invariant
                i < usize::MAX,
                seen == texts(names@),
                m <= names@.len(),
                covers@.len() == keys@.len(),
                forall|j: int|
                    0 <= j < covers@.len() ==> lists(
                        (#[trigger] covers@[j])@,
                        i + 1,
                        credits_seen(all, keys@[j], i as int, seen.take(m as int)),
                    ),
            decreases names@.len() - m,
        {
            credit(&mut covers, keys, &names[m], i, Ghost(all), Ghost(seen.take(m as int)));
            assert(seen.take(m as int).push(seen[m as int]) == seen.take(m + 1));
            m = m + 1;
        }
        proof {
            assert(seen.take(seen.len() as int) == seen);
            assert(all[i as int] == items@[i as int]@);
            assert forall|j: int| 0 <= j < covers@.len() implies lists(
                (#[trigger] covers@[j])@,
                i + 1,
                credits(all, keys@[j]),
            ) by {
                assert(seen.contains(keys@[j]) == credited(all[i as int], keys@[j]));
                lemma_lists_same(
                    covers@[j]@,
                    i + 1,
                    credits_seen(all, keys@[j], i as int, seen),
                    credits(all, keys@[j]),
                );
            }
        }
        i = i + 1;
    }
    covers
}

/// Notes that `name` is credited to the item at index `i`, if it is one of
/// `keys`.
fn credit(
    covers: &mut Vec<Vec<usize>>,
    keys: &StringSet,
    name: &str,
    i: usize,
    Ghost(all): Ghost<Seq<Seq<char>>>,
    Ghost(seen): Ghost<Seq<Seq<char>>>,
)
    requires
        i < usize::MAX,
        old(covers)@.len() == keys@.len(),
        forall|j: int|
            0 <= j < old(covers)@.len() ==> lists(
                (#[trigger] old(covers)@[j])@,
                i + 1,
                credits_seen(all, keys@[j], i as int, seen),
            ),
    ensures
        final(covers)@.len() == keys@.len(),
        forall|j: int|
            0 <= j < final(covers)@.len() ==> lists(
                (#[trigger] final(covers)@[j])@,
                i + 1,
                credits_seen(all, keys@[j], i as int, seen.push(name@)),
            ),
{
    let ghost before = covers@;
    let ghost now = seen.push(name@);
    proof {
        assert forall|p: Seq<char>| #[trigger] now.contains(p) <==> seen.contains(p) || p
            == name@ by {
            if seen.contains(p) {
                let a = choose|a: int| 0 <= a < seen.len() && seen[a] == p;
                assert(now[a] == p);
            }
            assert(now[seen.len() as int] == name@);
        }
        assert forall|j: int| 0 <= j < before.len() && keys@[j] != name@ implies lists(
            (#[trigger] before[j])@,
            i + 1,
            credits_seen(all, keys@[j], i as int, now),
        ) by {
            lemma_lists_same(
                before[j]@,
                i + 1,
                credits_seen(all, keys@[j], i as int, seen),
                credits_seen(all, keys@[j], i as int, now),
            );
        }
    }
    match keys.position(name) {
        Ok(j) => {
            let ghost f = credits_seen(all, keys@[j as int], i as int, seen);
            let ghost g = credits_seen(all, keys@[j as int], i as int, now);
            let ghost idx = covers@[j as int]@;
            let len = covers[j].len();
            if len > 0 && covers[j][len - 1] == i {
                proof {
                    assert(f(idx[len - 1] as int));
                    lemma_lists_same(idx, i + 1, f, g);
                }
            } else {
                proof {
                    if f(i as int) {
                        let a = choose|a: int| 0 <= a < idx.len() && idx[a] == i;
                        assert(idx[a] <= idx[idx.len() - 1]);
                        assert(idx[idx.len() - 1] < i + 1);
                    }
                    lemma_lists_push(idx, i, f, g);
                }
                covers[j].push(i);
            }
            proof {
                assert forall|k: int| 0 <= k < covers@.len() implies lists(
                    (#[trigger] covers@[k])@,
                    i + 1,
                    credits_seen(all, keys@[k], i as int, now),
                ) by {
                    if k != j {
                        assert(covers@[k] == before[k]);
                        if keys@[k] == name@ {
                            if k < j {
                                assert(precedes(keys@[k], keys@[j as int]));
                            } else {
                                assert(precedes(keys@[j as int], keys@[k]));
                            }
                            lemma_asymmetric(name@, name@);
                        }
                    }
                }
            }
        },
        Err(_) => {
            proof {
                assert forall|k: int| 0 <= k < covers@.len() implies lists(
                    (#[trigger] covers@[k])@,
                    i + 1,
                    credits_seen(all, keys@[k], i as int, now),
                ) by {
                    assert(keys@.contains(keys@[k]));
                    assert(covers@[k] == before[k]);
                }
            }
        },
    }
}

} // verus!
