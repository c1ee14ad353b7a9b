//! The order of strings: by their characters, the first difference deciding,
//! and a string before all that continue it.

use vstd::prelude::*;
use vstd::std_specs::iter::IteratorSpec;

verus! {

/// `a` and `b` agree before index `k`, and there `a` ends or has the smaller
/// character.
pub open spec fn diverges_at(a: Seq<char>, b: Seq<char>, k: int) -> bool {
    &&& 0 <= k <= a.len()
    &&& k < b.len()
    &&& a.take(k) == b.take(k)
    &&& k == a.len() || a[k] < b[k]
}

/// Whether `a` comes before `b`.
pub open spec fn precedes(a: Seq<char>, b: Seq<char>) -> bool {
    exists|k: int| diverges_at(a, b, k)
}

/// Strictly ascending: sorted, and nothing occurs twice.
pub open spec fn ascending(list: Seq<Seq<char>>) -> bool {
    forall|i: int, j: int| 0 <= i < j < list.len() ==> precedes(list[i], list[j])
}

/// How one string stands to another in the order.
#[derive(Clone, Copy, Debug, PartialEq, Eq, Structural)]
pub enum Standing {
    Before,
    Same,
    After,
}

/// How `a` stands to `b`.
pub fn standing(a: &str, b: &str) -> (standing: Standing)
    ensures
        standing == Standing::Before <==> precedes(a@, b@),
        standing == Standing::Same <==> a@ == b@,
        standing == Standing::After <==> precedes(b@, a@),
{
    let mut rest_a = a.chars();
    let mut rest_b = b.chars();
    let ghost mut k: int = 0;
    loop
        invariant
            0 <= k <= a@.len(),
            k <= b@.len(),
            a@.take(k) == b@.take(k),
            rest_a.remaining() == a@.skip(k),
            rest_b.remaining() == b@.skip(k),
        decreases a@.len() - k,
    {
        let next_a = rest_a.next();
        let next_b = rest_b.next();
        match (next_a, next_b) {
            (None, None) => {
                proof {
                    assert(a@.take(k) == a@ && b@.take(k) == b@);
                    lemma_irreflexive(a@);
                }
                return Standing::Same;
            },
            (None, Some(_)) => {
                proof {
                    assert(diverges_at(a@, b@, k));
                    lemma_asymmetric(a@, b@);
                    assert(a@ != b@);
                }
                return Standing::Before;
            },
            (Some(_), None) => {
                proof {
                    assert(diverges_at(b@, a@, k));
                    lemma_asymmetric(b@, a@);
                    assert(a@ != b@);
                }
                return Standing::After;
            },
            (Some(x), Some(y)) => {
                assert(x == a@[k] && y == b@[k]);
                if x != y {
                    if x < y {
                        proof {
                            assert(diverges_at(a@, b@, k));
                            lemma_asymmetric(a@, b@);
                        }
                        return Standing::Before;
                    }
                    proof {
                        assert(diverges_at(b@, a@, k));
                        lemma_asymmetric(b@, a@);
                    }
                    return Standing::After;
                }
                proof {
                    assert(a@.take(k + 1) == a@.take(k).push(x));
                    assert(b@.take(k + 1) == b@.take(k).push(y));
                    assert(a@.skip(k).drop_first() == a@.skip(k + 1));
                    assert(b@.skip(k).drop_first() == b@.skip(k + 1));
                    k = k + 1;
                }
            },
        }
    }
}

/// No string comes before itself.
pub proof fn lemma_irreflexive(a: Seq<char>)
    ensures
        !precedes(a, a),
{
}

/// Of two strings at most one comes before the other.
pub proof fn lemma_asymmetric(a: Seq<char>, b: Seq<char>)
    requires
        precedes(a, b),
    ensures
        !precedes(b, a),
        a != b,
{
    let k = choose|k: int| diverges_at(a, b, k);
    if precedes(b, a) {
        let j = choose|j: int| diverges_at(b, a, j);
        if j < k {
            assert(a.take(k)[j] == b.take(k)[j]);
        } else if k < j {
            assert(a.take(j)[k] == b.take(j)[k]);
        }
    }
}

/// What comes before a string comes before all that follow it.
pub proof fn lemma_transitive(a: Seq<char>, b: Seq<char>, c: Seq<char>)
    requires
        precedes(a, b),
        precedes(b, c),
    ensures
        precedes(a, c),
{
    let j = choose|j: int| diverges_at(a, b, j);
    let k = choose|k: int| diverges_at(b, c, k);
    let m = if j < k { j } else { k };
    assert(a.take(m) == a.take(j).take(m));
    assert(b.take(m) == b.take(j).take(m));
    assert(b.take(m) == b.take(k).take(m));
    assert(c.take(m) == c.take(k).take(m));
    if j < k {
        assert(b.take(k)[j] == c.take(k)[j]);
    } else if k < j {
        assert(a.take(j)[k] == b.take(j)[k]);
    }
    assert(diverges_at(a, c, m));
}

/// Of two different strings one comes before the other.
pub proof fn lemma_total(a: Seq<char>, b: Seq<char>)
    requires
        a != b,
    ensures
        precedes(a, b) || precedes(b, a),
{
    assert(a.take(0) == b.take(0));
    lemma_total_from(a, b, 0);
}

proof fn lemma_total_from(a: Seq<char>, b: Seq<char>, k: int)
    requires
        a != b,
        0 <= k <= a.len(),
        k <= b.len(),
        a.take(k) == b.take(k),
    ensures
        precedes(a, b) || precedes(b, a),
    decreases a.len() - k,
{
    if k == a.len() && k == b.len() {
        assert(a.take(k) == a && b.take(k) == b);
    } else if k == a.len() || k < b.len() && a[k] < b[k] {
        assert(diverges_at(a, b, k));
    } else if k == b.len() || b[k] < a[k] {
        assert(diverges_at(b, a, k));
    } else {
        assert(a.take(k + 1) == a.take(k).push(a[k]));
        assert(b.take(k + 1) == b.take(k).push(b[k]));
        lemma_total_from(a, b, k + 1);
    }
}

/// A set of strings has one ascending list.
pub proof fn law_ascending_unique(a: Seq<Seq<char>>, b: Seq<Seq<char>>)
    requires
        ascending(a),
        ascending(b),
        a.to_set() == b.to_set(),
    ensures
        a == b,
    decreases a.len(),
{
    assert(forall|s: Seq<char>| a.contains(s) <==> a.to_set().contains(s));
    assert(forall|s: Seq<char>| b.contains(s) <==> b.to_set().contains(s));
    if a.len() == 0 {
        if b.len() > 0 {
            assert(b.contains(b[0]));
        }
    } else if b.len() == 0 {
        assert(a.contains(a[0]));
    } else {
        let x = a.last();
        let y = b.last();
        assert(a.contains(x) && b.contains(y));
        let i = choose|i: int| 0 <= i < b.len() && b[i] == x;
        let j = choose|j: int| 0 <= j < a.len() && a[j] == y;
        if x != y {
            assert(precedes(x, y));
            assert(precedes(y, x));
            lemma_asymmetric(x, y);
        }
        let a0 = a.drop_last();
        let b0 = b.drop_last();
        assert forall|s: Seq<char>| a0.to_set().contains(s) <==> b0.to_set().contains(s) by {
            lemma_irreflexive(x);
            if a0.contains(s) {
                let m = choose|m: int| 0 <= m < a0.len() && a0[m] == s;
                assert(precedes(a[m], x));
                assert(a.contains(a[m]));
                let n = choose|n: int| 0 <= n < b.len() && b[n] == s;
                assert(n != b.len() - 1);
                assert(b0[n] == s);
            }
            if b0.contains(s) {
                let m = choose|m: int| 0 <= m < b0.len() && b0[m] == s;
                assert(precedes(b[m], y));
                assert(b.contains(b[m]));
                let n = choose|n: int| 0 <= n < a.len() && a[n] == s;
                assert(n != a.len() - 1);
                assert(a0[n] == s);
            }
        }
        assert(a0.to_set() =~= b0.to_set());
        law_ascending_unique(a0, b0);
        assert(a == a0.push(x));
        assert(b == b0.push(y));
    }
}

} // verus!
