//! Ordered sets of strings.

use crate::order::{
    ascending, lemma_irreflexive, lemma_transitive, precedes, standing, Standing,
};
use crate::text::texts;
use vstd::prelude::*;

verus! {

/// A set of strings, kept in ascending order.
pub struct StringSet {
    items: Vec<String>,
}

impl View for StringSet {
    type V = Seq<Seq<char>>;

    /// The members, in ascending order.
    closed spec fn view(&self) -> Seq<Seq<char>> {
        texts(self.items@)
    }
}

impl StringSet {
    #[verifier::type_invariant]
    closed spec fn sorted(&self) -> bool {
        ascending(texts(self.items@))
    }

    /// The empty set.
    pub fn new() -> (set: Self)
        ensures
            set@ == Seq::<Seq<char>>::empty(),
    {
        let items: Vec<String> = Vec::new();
        assert(texts(items@) == Seq::<Seq<char>>::empty());
        StringSet { items }
    }

    /// The set of the strings in `list`.
    pub fn from_vec(list: Vec<String>) -> (set: Self)
        ensures
            set@.to_set() == texts(list@).to_set(),
            ascending(set@),
    {
        let mut set = StringSet::new();
        let mut i: usize = 0;
        assert(texts(list@).take(0).to_set() =~= set@.to_set());
        while i < list.len()
            invariant
                i <= list@.len(),
                set@.to_set() == texts(list@).take(i as int).to_set(),
            decreases list@.len() - i,
        {
            set.insert(list[i].clone());
            proof {
                let all = texts(list@);
                assert(all.take(i + 1) == all.take(i as int).push(all[i as int]));
                all.take(i as int).lemma_push_to_set_commute(all[i as int]);
            }
            i = i + 1;
        }
        proof {
            use_type_invariant(&set);
            assert(texts(list@).take(i as int) == texts(list@));
        }
        set
    }

    /// The members, in ascending order.
    pub fn as_slice(&self) -> (items: &[String])
        ensures
            texts(items@) == self@,
            ascending(self@),
    {
        proof {
            use_type_invariant(self);
        }
        &self.items
    }

    /// How many members there are.
    pub fn len(&self) -> (len: usize)
        ensures
            len == self@.len(),
    {
        self.items.len()
    }

    /// Whether there is no member.
    pub fn is_empty(&self) -> (empty: bool)
        ensures
            empty == (self@.len() == 0),
    {
        self.items.len() == 0
    }

    /// Where `s` stands among the members, or, failing that, where it would
    /// have to.
    pub fn position(&self, s: &str) -> (place: Result<usize, usize>)
        ensures
            match place {
                Ok(i) => i < self@.len() && self@[i as int] == s@,
                Err(i) => {
                    &&& i <= self@.len()
                    &&& !self@.contains(s@)
                    &&& forall|j: int| 0 <= j < i ==> precedes(#[trigger] self@[j], s@)
                    &&& forall|j: int| i <= j < self@.len() ==> precedes(s@, #[trigger] self@[j])
                },
            },
            ascending(self@),
    {
        proof {
            use_type_invariant(self);
        }
        let mut low: usize = 0;
        let mut high: usize = self.items.len();
        while low < high
            invariant
                ascending(self@),
                self@ == texts(self.items@),
                low <= high <= self@.len(),
                forall|j: int| 0 <= j < low ==> precedes(#[trigger] self@[j], s@),
                forall|j: int| high <= j < self@.len() ==> precedes(s@, #[trigger] self@[j]),
            decreases high - low,
        {
            let middle = low + (high - low) / 2;
            let ghost pivot = self@[middle as int];
            match standing(&self.items[middle], s) {
                Standing::Same => {
                    return Ok(middle);
                },
                Standing::Before => {
                    proof {
                        assert forall|j: int| 0 <= j < middle + 1 implies precedes(
                            #[trigger] self@[j],
                            s@,
                        ) by {
                            if low <= j < middle {
                                lemma_transitive(self@[j], pivot, s@);
                            }
                        }
                    }
                    low = middle + 1;
                },
                Standing::After => {
                    proof {
                        assert forall|j: int| middle <= j < self@.len() implies precedes(
                            s@,
                            #[trigger] self@[j],
                        ) by {
                            if middle < j {
                                lemma_transitive(s@, pivot, self@[j]);
                            }
                        }
                    }
                    high = middle;
                },
            }
        }
        proof {
            if self@.contains(s@) {
                lemma_irreflexive(s@);
                let j = choose|j: int| 0 <= j < self@.len() && self@[j] == s@;
                assert(precedes(self@[j], s@) || precedes(s@, self@[j]));
            }
        }
        Err(low)
    }

    /// Whether `s` is a member.
    pub fn contains(&self, s: &str) -> (found: bool)
        ensures
            found == self@.contains(s@),
    {
        match self.position(s) {
            Ok(i) => {
                assert(self@[i as int] == s@);
                true
            },
            Err(_) => false,
        }
    }

    /// Adds `s`, unless it is a member already.
    pub fn insert(&mut self, s: String)
        ensures
            final(self)@.to_set() == old(self)@.to_set().insert(s@),
            final(self)@.len() == if old(self)@.contains(s@) {
                old(self)@.len()
            } else {
                old(self)@.len() + 1
            },
            ascending(final(self)@),
    {
        match self.position(&s) {
            Ok(i) => {
                assert(self@.contains(s@));
                assert(self@.to_set() =~= self@.to_set().insert(s@));
            },
            Err(i) => {
                let ghost before = self@;
                let ghost text = s@;
                let mut items: Vec<String> = Vec::new();
                std::mem::swap(&mut items, &mut self.items);
                items.insert(i, s);
                proof {
                    let after = texts(items@);
                    assert(after == before.insert(i as int, text));
                    assert forall|a: int, b: int| 0 <= a < b < after.len() implies precedes(
                        after[a],
                        after[b],
                    ) by {
                        if b < i {
                            assert(precedes(before[a], before[b]));
                        } else if b == i {
                            assert(precedes(before[a], text));
                        } else if a < i {
                            assert(precedes(before[a], before[b - 1]));
                        } else if a == i {
                            assert(precedes(text, before[b - 1]));
                        } else {
                            assert(precedes(before[a - 1], before[b - 1]));
                        }
                    }
                    assert forall|t: Seq<char>| after.contains(t) <==> before.contains(t) || t
                        == text by {
                        if before.contains(t) {
                            let a = choose|a: int| 0 <= a < before.len() && before[a] == t;
                            assert(after[if a < i { a } else { a + 1 }] == t);
                        }
                        assert(after[i as int] == text);
                    }
                    assert(after.to_set() =~= before.to_set().insert(text));
                }
                self.items = items;
            },
        }
    }
}

} // verus!
