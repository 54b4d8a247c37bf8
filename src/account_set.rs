//! A finite set of account ids.
use vstd::prelude::*;

verus! {

/// A set of account ids, held without repetition.
pub struct AccountSet {
    items: Vec<u64>,
}

impl View for AccountSet {
    type V = Set<u64>;

    closed spec fn view(&self) -> Set<u64> {
        self.items@.to_set()
    }
}

impl AccountSet {
    pub closed spec fn wf(&self) -> bool {
        self.items@.no_duplicates()
    }

    pub fn new() -> (r: Self)
        ensures
            r.wf(),
            r@ == Set::<u64>::empty(),
    {
        let r = AccountSet { items: Vec::new() };
        assert(r@ =~= Set::<u64>::empty());
        r
    }

    pub proof fn lemma_finite(&self)
        ensures
            self@.finite(),
    {
        self.items@.lemma_cardinality_of_set();
    }

    fn index_of(&self, a: u64) -> (r: Option<usize>)
        ensures
            match r {
                Some(i) => i < self.items@.len() && self.items@[i as int] == a,
                None => !self@.contains(a),
            },
    {
        let mut i: usize = 0;
        while i < self.items.len()
            invariant
                i <= self.items@.len(),
                forall|j: int| 0 <= j < i ==> self.items@[j] != a,
            decreases self.items@.len() - i,
        {
            if self.items[i] == a {
                return Some(i);
            }
            i = i + 1;
        }
        None
    }

    pub fn contains(&self, a: u64) -> (r: bool)
        ensures
            r == self@.contains(a),
    {
        match self.index_of(a) {
            Some(i) => {
                assert(self.items@.contains(a));
                true
            },
            None => false,
        }
    }

    pub fn len(&self) -> (r: usize)
        requires
            self.wf(),
        ensures
            r == self@.len(),
    {
        proof {
            self.items@.unique_seq_to_set();
        }
        self.items.len()
    }

    /// Adds `a`; says whether it was absent.
    pub fn insert(&mut self, a: u64) -> (r: bool)
        requires
            old(self).wf(),
        ensures
            final(self).wf(),
            final(self)@ == old(self)@.insert(a),
            r == !old(self)@.contains(a),
    {
        if self.contains(a) {
            assert(self@ =~= old(self)@.insert(a));
            false
        } else {
            let ghost s0 = self.items@;
            self.items.push(a);
            proof {
                assert(self.items@ == s0 + seq![a]);
                Seq::<u64>::lemma_to_set_insert_commutes(s0, a);
                assert forall|i: int, j: int|
                    0 <= i < self.items@.len() && 0 <= j < self.items@.len() && i != j implies
                    self.items@[i] != self.items@[j] by {
                    if i == s0.len() {
                        assert(s0.contains(self.items@[j]));
                    } else if j == s0.len() {
                        assert(s0.contains(self.items@[i]));
                    }
                }
            }
            true
        }
    }

    /// Removes `a`; says whether it was present.
    pub fn remove(&mut self, a: u64) -> (r: bool)
        requires
            old(self).wf(),
        ensures
            final(self).wf(),
            final(self)@ == old(self)@.remove(a),
            r == old(self)@.contains(a),
    {
        match self.index_of(a) {
            Some(i) => {
                let ghost s0 = self.items@;
                self.items.remove(i);
                proof {
                    let s1 = self.items@;
                    assert(s1 == s0.remove(i as int));
                    assert forall|x: u64| #[trigger] s1.contains(x) == (s0.contains(x) && x != a) by {
                        if s0.contains(x) && x != a {
                            let j = choose|j: int| 0 <= j < s0.len() && s0[j] == x;
                            if j < i {
                                assert(s1[j] == x);
                            } else {
                                assert(s1[j - 1] == x);
                            }
                        }
                        if s1.contains(x) {
                            let j = choose|j: int| 0 <= j < s1.len() && s1[j] == x;
                            if j < i {
                                assert(s0[j] == x);
                            } else {
                                assert(s0[j + 1] == x);
                            }
                        }
                    }
                    assert(self@ =~= old(self)@.remove(a));
                }
                true
            },
            None => {
                assert(self@ =~= old(self)@.remove(a));
                false
            },
        }
    }

    /// The greatest account id in the set, if any.
    pub fn max(&self) -> (r: Option<u64>)
        ensures
            r.is_none() == (self@ == Set::<u64>::empty()),
            r.is_some() ==> self@.contains(r.unwrap()),
            r.is_some() ==> forall|x: u64| self@.contains(x) ==> x <= r.unwrap(),
    {
        if self.items.len() == 0 {
            assert(self@ =~= Set::<u64>::empty());
            return None;
        }
        let mut m: u64 = self.items[0];
        let mut i: usize = 1;
        while i < self.items.len()
            invariant
                1 <= i <= self.items@.len(),
                self.items@.contains(m),
                forall|j: int| 0 <= j < i ==> self.items@[j] <= m,
            decreases self.items@.len() - i,
        {
            if self.items[i] > m {
                m = self.items[i];
            }
            i = i + 1;
        }
        assert(self@.contains(m));
        assert(self@ != Set::<u64>::empty());
        Some(m)
    }

}

} // verus!
