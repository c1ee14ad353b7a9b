//! Ascending lists of indices, and what they pick out of a sequence.

use vstd::prelude::*;

verus! {

/// Whether `idx` lists, in ascending order, the indices below `n` of which `f`
/// holds.
pub open spec fn lists(idx: Seq<usize>, n: int, f: spec_fn(int) -> bool) -> bool {
    &&& forall|a: int, b: int| 0 <= a < b < idx.len() ==> idx[a] < idx[b]
    &&& forall|a: int| 0 <= a < idx.len() ==> (#[trigger] idx[a]) < n && f(idx[a] as int)
    &&& forall|i: int| 0 <= i < n && #[trigger] f(i) ==> idx.contains(i as usize)
}

/// The members of `all` below index `n` at the indices of which `f` holds.
pub open spec fn kept(all: Seq<Seq<char>>, n: int, f: spec_fn(int) -> bool) -> Seq<Seq<char>>
    decreases n,
{
    if n <= 0 {
        Seq::empty()
    } else if f(n - 1) {
        kept(all, n - 1, f).push(all[n - 1])
    } else {
        kept(all, n - 1, f)
    }
}

/// What the listed indices keep.
pub proof fn lemma_kept_listed(all: Seq<Seq<char>>, n: int, f: spec_fn(int) -> bool, idx: Seq<usize>)
    requires
        0 <= n <= all.len(),
        n <= usize::MAX,
        lists(idx, n, f),
    ensures
        kept(all, n, f) == idx.map_values(|i: usize| all[i as int]),
    decreases n,
{
    if n == 0 {
        if idx.len() > 0 {
            assert(idx[0] < n);
        }
    } else {
        let last = n - 1;
        if f(last) {
            assert(idx.contains(last as usize));
            let a = choose|a: int| 0 <= a < idx.len() && idx[a] == last as usize;
            if a < idx.len() - 1 {
                assert(idx[a] < idx[idx.len() - 1]);
            }
            let rest = idx.drop_last();
            assert forall|i: int| 0 <= i < last && #[trigger] f(i) implies rest.contains(
                i as usize,
            ) by {
                let b = choose|b: int| 0 <= b < idx.len() && idx[b] == i as usize;
                assert(rest[b] == i as usize);
            }
            assert forall|b: int| 0 <= b < rest.len() implies (#[trigger] rest[b]) < last && f(
                rest[b] as int,
            ) by {
                assert(idx[b] < idx[a]);
            }
            lemma_kept_listed(all, last, f, rest);
            assert(idx == rest.push(last as usize));
        } else {
            assert forall|b: int| 0 <= b < idx.len() implies (#[trigger] idx[b]) < last by {
                assert(f(idx[b] as int));
            }
            lemma_kept_listed(all, last, f, idx);
        }
    }
}

/// Filtering what is kept narrows the indices.
pub proof fn lemma_kept_filtered(
    all: Seq<Seq<char>>,
    n: int,
    f: spec_fn(int) -> bool,
    p: spec_fn(Seq<char>) -> bool,
    g: spec_fn(int) -> bool,
)
    requires
        0 <= n <= all.len(),
        forall|i: int| 0 <= i < n ==> #[trigger] g(i) == (f(i) && p(all[i])),
    ensures
        kept(all, n, f).filter(p) == kept(all, n, g),
    decreases n,
{
    reveal(Seq::filter);
    if n > 0 {
        lemma_kept_filtered(all, n - 1, f, p, g);
        assert(g(n - 1) == (f(n - 1) && p(all[n - 1])));
        if f(n - 1) {
            assert(kept(all, n, f).drop_last() == kept(all, n - 1, f));
        }
    }
}

/// Everything is kept where every index counts.
pub proof fn lemma_kept_all(all: Seq<Seq<char>>, n: int, f: spec_fn(int) -> bool)
    requires
        0 <= n <= all.len(),
        forall|i: int| 0 <= i < n ==> #[trigger] f(i),
    ensures
        kept(all, n, f) == all.take(n),
    decreases n,
{
    if n > 0 {
        lemma_kept_all(all, n - 1, f);
        assert(f(n - 1));
        assert(all.take(n) == all.take(n - 1).push(all[n - 1]));
    }
}

/// The same list serves a condition that holds of the same indices.
pub proof fn lemma_lists_same(idx: Seq<usize>, n: int, f: spec_fn(int) -> bool, g: spec_fn(int) -> bool)
    requires
        n <= usize::MAX,
        lists(idx, n, f),
        forall|i: int| 0 <= i < n ==> #[trigger] g(i) == f(i),
    ensures
        lists(idx, n, g),
{
    assert forall|a: int| 0 <= a < idx.len() implies (#[trigger] idx[a]) < n && g(idx[a] as int) by {
        assert(g(idx[a] as int) == f(idx[a] as int));
    }
}

/// One index more, of which the condition does not hold, adds nothing.
pub proof fn lemma_lists_extend(
    idx: Seq<usize>,
    n: int,
    f: spec_fn(int) -> bool,
    g: spec_fn(int) -> bool,
)
    requires
        0 <= n < usize::MAX,
        lists(idx, n, f),
        forall|i: int| 0 <= i < n ==> #[trigger] g(i) == f(i),
        !g(n),
    ensures
        lists(idx, n + 1, g),
{
    lemma_lists_same(idx, n, f, g);
}

/// The last index joins the list at its end.
pub proof fn lemma_lists_push(
    idx: Seq<usize>,
    n: usize,
    f: spec_fn(int) -> bool,
    g: spec_fn(int) -> bool,
)
    requires
        n < usize::MAX,
        lists(idx, n + 1, f),
        !f(n as int),
        forall|i: int| 0 <= i < n ==> #[trigger] g(i) == f(i),
        g(n as int),
    ensures
        lists(idx.push(n), n + 1, g),
{
    let grown = idx.push(n);
    assert forall|a: int| 0 <= a < idx.len() implies (#[trigger] idx[a]) < n && g(
        idx[a] as int,
    ) by {
        assert(f(idx[a] as int));
        assert(g(idx[a] as int) == f(idx[a] as int));
    }
    assert forall|i: int| 0 <= i < n + 1 && #[trigger] g(i) implies grown.contains(i as usize) by {
        if i == n {
            assert(grown[idx.len() as int] == n);
        } else {
            assert(f(i));
            let a = choose|a: int| 0 <= a < idx.len() && idx[a] == i as usize;
            assert(grown[a] == i as usize);
        }
    }
}

} // verus!
