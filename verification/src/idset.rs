//! A set of module identifiers, kept as a sorted list without repeats.
use vstd::prelude::*;
use crate::order::{insert_sorted, lemma_lt_irreflexive, strictly_sorted, texts};
use crate::text_util::{owned, str_eq};

verus! {

/// A set of identifiers, listed in text order.
pub struct IdSet {
    items: Vec<String>,
}

impl View for IdSet {
    type V = Set<Seq<char>>;

    closed spec fn view(&self) -> Set<Seq<char>> {
        texts(self.items@).to_set()
    }
}

/// A strictly sorted list has no repeats and as many members as elements.
pub proof fn lemma_sorted_unique(t: Seq<Seq<char>>)
    requires
        strictly_sorted(t),
    ensures
        t.no_duplicates(),
        t.to_set().len() == t.len(),
{
    assert forall|a: int, b: int| 0 <= a < t.len() && 0 <= b < t.len() && a != b implies t[a] != t[b] by {
        if a < b {
            lemma_lt_irreflexive(t[a]);
        } else {
            lemma_lt_irreflexive(t[b]);
        }
    }
    t.unique_seq_to_set();
}

impl IdSet {
    #[verifier::type_invariant]
    spec fn sorted(&self) -> bool {
        strictly_sorted(texts(self.items@))
    }

    /// The identifiers in text order.
    pub closed spec fn sorted_view(&self) -> Seq<Seq<char>> {
        texts(self.items@)
    }

    /// The listing holds exactly the members of the set.
    pub proof fn lemma_view(&self)
        ensures
            self.sorted_view().to_set() == self@,
    {
    }

    /// The empty set.
    pub fn new() -> (r: Self)
        ensures
            r@ == Set::<Seq<char>>::empty(),
    {
        let r = IdSet { items: Vec::new() };
        assert(texts(r.items@).to_set() =~= Set::<Seq<char>>::empty());
        r
    }

    /// Whether `id` is in the set.
    pub fn contains(&self, id: &str) -> (r: bool)
        ensures
            r == self@.contains(id@),
    {
        let mut i: usize = 0;
        while i < self.items.len()
            invariant
                i <= self.items.len(),
                forall|k: int| 0 <= k < i ==> (#[trigger] self.items@[k])@ != id@,
            decreases self.items.len() - i,
        {
            if str_eq(self.items[i].as_str(), id) {
                assert(texts(self.items@)[i as int] == id@);
                return true;
            }
            i += 1;
        }
        proof {
            if texts(self.items@).to_set().contains(id@) {
                let k = choose|k: int| 0 <= k < texts(self.items@).len() && texts(self.items@)[k] == id@;
                assert(self.items@[k]@ == id@);
            }
        }
        false
    }

    /// Adds `id` to the set.
    pub fn insert(&mut self, id: &str)
        ensures
            final(self)@ == old(self)@.insert(id@),
    {
        proof {
            use_type_invariant(&*self);
        }
        if !self.contains(id) {
            let mut items = Vec::new();
            std::mem::swap(&mut items, &mut self.items);
            insert_sorted(&mut items, owned(id));
            self.items = items;
        } else {
            assert(old(self)@.insert(id@) =~= old(self)@);
        }
    }

    /// The number of identifiers.
    pub fn len(&self) -> (r: usize)
        ensures
            r == self@.len(),
    {
        proof {
            use_type_invariant(self);
            lemma_sorted_unique(texts(self.items@));
        }
        self.items.len()
    }

    /// Whether the set is empty.
    pub fn is_empty(&self) -> (r: bool)
        ensures
            r == (self@.len() == 0),
    {
        proof {
            use_type_invariant(self);
            lemma_sorted_unique(texts(self.items@));
        }
        self.items.len() == 0
    }

    /// The identifiers, in text order.
    pub fn to_vec(&self) -> (r: Vec<String>)
        ensures
            texts(r@) == self.sorted_view(),
            strictly_sorted(texts(r@)),
            texts(r@).to_set() == self@,
    {
        proof {
            use_type_invariant(self);
        }
        let mut r: Vec<String> = Vec::new();
        let mut i: usize = 0;
        while i < self.items.len()
            invariant
                i <= self.items.len(),
                texts(r@) == texts(self.items@).take(i as int),
            decreases self.items.len() - i,
        {
            let ghost before = texts(r@);
            r.push(owned(self.items[i].as_str()));
            assert(texts(r@) =~= before.push(self.items@[i as int]@));
            assert(texts(self.items@)[i as int] == self.items@[i as int]@);
            assert(texts(self.items@).take(i + 1) =~= texts(self.items@).take(i as int).push(self.items@[i as int]@));
            i += 1;
        }
        assert(texts(self.items@).take(self.items.len() as int) =~= texts(self.items@));
        r
    }

    /// A copy of the set.
    pub fn copy(&self) -> (r: Self)
        ensures
            r@ == self@,
            r.sorted_view() == self.sorted_view(),
    {
        proof {
            use_type_invariant(self);
        }
        let items = self.to_vec();
        assert(texts(items@) == texts(self.items@));
        IdSet { items }
    }
}

} // verus!
