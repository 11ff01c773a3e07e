//! A finite set of domain names, held as a vector in strictly increasing
//! order, so that no domain occurs twice and lookups are binary searches.

use vstd::prelude::*;

use crate::text::{
    chars_of, lemma_text_less_irreflexive, lemma_text_less_transitive, order_texts, text_less,
    TextOrder,
};

verus! {

/// A set of domain names. The vector is in strictly increasing text order,
/// so it never holds the same text twice and its length is the size of the
/// set.
#[derive(Debug)]
pub struct DomainSet {
    items: Vec<String>,
}

impl DomainSet {
    /// The texts of the held domains, in increasing order.
    pub closed spec fn texts(&self) -> Seq<Seq<char>> {
        self.items@.map_values(|s: String| s@)
    }

    #[verifier::type_invariant]
    spec fn ordered(&self) -> bool {
        increasing(self.texts())
    }
}

/// Every text comes before each later one.
pub open spec fn increasing(s: Seq<Seq<char>>) -> bool {
    forall|i: int, j: int| 0 <= i < j < s.len() ==> text_less(#[trigger] s[i], #[trigger] s[j])
}

proof fn lemma_increasing_no_duplicates(s: Seq<Seq<char>>)
    requires
        increasing(s),
    ensures
        s.no_duplicates(),
{
    assert forall|i: int, j: int| 0 <= i < s.len() && 0 <= j < s.len() && i != j implies s[i]
        != s[j] by {
        if s[i] == s[j] {
            lemma_text_less_irreflexive(s[i]);
            if i < j {
                assert(text_less(s[i], s[j]));
            } else {
                assert(text_less(s[j], s[i]));
            }
        }
    }
}

impl View for DomainSet {
    type V = Set<Seq<char>>;

    closed spec fn view(&self) -> Set<Seq<char>> {
        self.texts().to_set()
    }
}

impl DomainSet {
    proof fn lemma_view_facts(&self)
        requires
            increasing(self.texts()),
        ensures
            self@.finite(),
            self@.len() == self.items@.len(),
            forall|d: Seq<char>|
                self@.contains(d) <==> exists|i: int|
                    0 <= i < self.items@.len() && (#[trigger] self.items@[i])@ == d,
    {
        lemma_increasing_no_duplicates(self.texts());
        self.texts().unique_seq_to_set();
        assert forall|d: Seq<char>| self@.contains(d) implies exists|i: int|
            0 <= i < self.items@.len() && (#[trigger] self.items@[i])@ == d by {
            let i = choose|i: int| 0 <= i < self.texts().len() && self.texts()[i] == d;
            assert(self.items@[i]@ == d);
        }
        assert forall|d: Seq<char>|
            (exists|i: int| 0 <= i < self.items@.len() && (#[trigger] self.items@[i])@ == d)
            implies self@.contains(d) by {
            let i = choose|i: int| 0 <= i < self.items@.len() && (#[trigger] self.items@[i])@ == d;
            assert(self.texts()[i] == d);
        }
    }

    /// The empty set.
    pub fn new() -> (r: Self)
        ensures
            r@ == Set::<Seq<char>>::empty(),
    {
        let r = DomainSet { items: Vec::new() };
        assert(r.texts() =~= Seq::<Seq<char>>::empty());
        assert(r@ =~= Set::<Seq<char>>::empty());
        r
    }

    /// The number of domains in the set.
    pub fn len(&self) -> (n: usize)
        ensures
            self@.finite(),
            n == self@.len(),
    {
        proof {
            use_type_invariant(self);
            self.lemma_view_facts();
        }
        self.items.len()
    }

    /// Whether the set holds no domain.
    pub fn is_empty(&self) -> (b: bool)
        ensures
            self@.finite(),
            b == (self@.len() == 0),
            b == (self@ == Set::<Seq<char>>::empty()),
    {
        proof {
            use_type_invariant(self);
            self.lemma_view_facts();
        }
        let b = self.items.len() == 0;
        if !b {
            assert(self@.contains(self.items@[0]@));
        } else {
            assert(self@ =~= Set::<Seq<char>>::empty());
        }
        b
    }

    /// Where `key` stands among the domains: `(true, i)` when it is the
    /// `i`-th, else `(false, i)` with every domain before index `i` smaller
    /// and every other one larger.
    fn search(&self, key: &Vec<char>) -> (r: (bool, usize))
        ensures
            r.1 <= self.texts().len(),
            r.0 ==> r.1 < self.texts().len() && self.texts()[r.1 as int] == key@,
            !r.0 ==> (forall|i: int| 0 <= i < r.1 ==> text_less(#[trigger] self.texts()[i], key@)),
            !r.0 ==> (forall|i: int|
                r.1 <= i < self.texts().len() ==> text_less(key@, #[trigger] self.texts()[i])),
    {
        proof {
            use_type_invariant(self);
        }
        let mut lo: usize = 0;
        let mut hi: usize = self.items.len();
        while lo < hi
            invariant
                lo <= hi <= self.items@.len(),
                self.texts().len() == self.items@.len(),
                increasing(self.texts()),
                forall|i: int| 0 <= i < lo ==> text_less(#[trigger] self.texts()[i], key@),
                forall|i: int| hi <= i < self.texts().len() ==> text_less(key@, #[trigger] self.texts()[i]),
            decreases hi - lo,
        {
            let mid = lo + (hi - lo) / 2;
            let item = chars_of(self.items[mid].as_str());
            assert(item@ == self.texts()[mid as int]);
            match order_texts(&item, key) {
                TextOrder::Before => {
                    assert forall|i: int| 0 <= i < mid + 1 implies text_less(
                        #[trigger] self.texts()[i],
                        key@,
                    ) by {
                        if i < mid {
                            assert(text_less(self.texts()[i], self.texts()[mid as int]));
                            lemma_text_less_transitive(self.texts()[i], self.texts()[mid as int], key@);
                        }
                    }
                    lo = mid + 1;
                },
                TextOrder::After => {
                    assert forall|i: int| mid <= i < self.texts().len() implies text_less(
                        key@,
                        #[trigger] self.texts()[i],
                    ) by {
                        if i > mid {
                            assert(text_less(self.texts()[mid as int], self.texts()[i]));
                            lemma_text_less_transitive(key@, self.texts()[mid as int], self.texts()[i]);
                        }
                    }
                    hi = mid;
                },
                TextOrder::Same => {
                    return (true, mid);
                },
            }
        }
        (false, lo)
    }

    /// Whether `domain` is in the set.
    pub fn contains(&self, domain: &String) -> (b: bool)
        ensures
            b == self@.contains(domain@),
    {
        proof {
            use_type_invariant(self);
            self.lemma_view_facts();
        }
        let key = chars_of(domain.as_str());
        let (found, pos) = self.search(&key);
        proof {
            if found {
                assert(self.items@[pos as int]@ == domain@);
            } else if self@.contains(domain@) {
                let i = choose|i: int| 0 <= i < self.items@.len() && (#[trigger] self.items@[i])@ == domain@;
                assert(self.texts()[i] == key@);
                lemma_text_less_irreflexive(key@);
            }
        }
        found
    }

    /// Adds `domain`; returns whether it was not already there.
    pub fn insert(&mut self, domain: String) -> (added: bool)
        ensures
            final(self)@ == old(self)@.insert(domain@),
            added == !old(self)@.contains(domain@),
    {
        proof {
            use_type_invariant(&*self);
            self.lemma_view_facts();
        }
        let key = chars_of(domain.as_str());
        let (found, pos) = self.search(&key);
        if found {
            proof {
                assert(self.items@[pos as int]@ == domain@);
                assert(self@.insert(domain@) =~= self@);
            }
            false
        } else {
            let ghost old_texts = self.texts();
            proof {
                if self@.contains(domain@) {
                    let i = choose|i: int|
                        0 <= i < self.items@.len() && (#[trigger] self.items@[i])@ == domain@;
                    assert(old_texts[i] == key@);
                    lemma_text_less_irreflexive(key@);
                }
            }
            let mut items: Vec<String> = Vec::new();
            std::mem::swap(&mut items, &mut self.items);
            items.insert(pos, domain);
            proof {
                let grown = DomainSet { items };
                let new_texts = old_texts.insert(pos as int, key@);
                assert(grown.texts() =~= new_texts);
                assert forall|i: int, j: int| 0 <= i < j < new_texts.len() implies text_less(
                    #[trigger] new_texts[i],
                    #[trigger] new_texts[j],
                ) by {
                    if j < pos {
                        assert(new_texts[i] == old_texts[i] && new_texts[j] == old_texts[j]);
                    } else if j == pos {
                        assert(new_texts[i] == old_texts[i]);
                    } else if i < pos {
                        assert(new_texts[i] == old_texts[i] && new_texts[j] == old_texts[j - 1]);
                        lemma_text_less_transitive(old_texts[i], key@, old_texts[j - 1]);
                    } else if i == pos {
                        assert(new_texts[j] == old_texts[j - 1]);
                    } else {
                        assert(new_texts[i] == old_texts[i - 1] && new_texts[j] == old_texts[j - 1]);
                    }
                }
                assert(new_texts.to_set() =~= old_texts.to_set().insert(key@)) by {
                    assert forall|d: Seq<char>| new_texts.to_set().contains(d) implies old_texts.to_set().insert(key@).contains(d) by {
                        let k = choose|k: int| 0 <= k < new_texts.len() && new_texts[k] == d;
                        if k < pos {
                            assert(old_texts[k] == d);
                        } else if k > pos {
                            assert(old_texts[k - 1] == d);
                        }
                    }
                    assert forall|d: Seq<char>| old_texts.to_set().insert(key@).contains(d) implies new_texts.to_set().contains(d) by {
                        if d == key@ {
                            assert(new_texts[pos as int] == d);
                        } else {
                            let k = choose|k: int| 0 <= k < old_texts.len() && old_texts[k] == d;
                            if k < pos {
                                assert(new_texts[k] == d);
                            } else {
                                assert(new_texts[k + 1] == d);
                            }
                        }
                    }
                }
            }
            self.items = items;
            true
        }
    }

    /// Adds every domain of `other`.
    pub fn extend(&mut self, other: DomainSet)
        ensures
            final(self)@ == old(self)@.union(other@),
    {
        proof {
            use_type_invariant(&other);
            other.lemma_view_facts();
        }
        let ghost start = self@;
        let items = other.items;
        let mut i: usize = 0;
        while i < items.len()
            invariant
                i <= items@.len(),
                other.items@ == items@,
                other@.finite(),
                forall|d: Seq<char>|
                    other@.contains(d) <==> exists|j: int|
                        0 <= j < items@.len() && (#[trigger] items@[j])@ == d,
                self@ == start.union(
                    Set::new(|d: Seq<char>| exists|j: int| 0 <= j < i && (#[trigger] items@[j])@ == d),
                ),
            decreases items@.len() - i,
        {
            let d = items[i].clone();
            self.insert(d);
            proof {
                assert(self@ =~= start.union(
                    Set::new(|d: Seq<char>| exists|j: int| 0 <= j < i + 1 && (#[trigger] items@[j])@ == d),
                )) by {
                    assert(items@[i as int]@ == d@);
                }
            }
            i = i + 1;
        }
        assert(self@ =~= start.union(other@));
    }

    /// A second set with the same domains.
    pub fn copied(&self) -> (r: DomainSet)
        ensures
            r@ == self@,
    {
        proof {
            use_type_invariant(self);
        }
        let items = self.items.clone();
        let r = DomainSet { items };
        assert(r.texts() =~= self.texts());
        r
    }
}

} // verus!
