//! An association table keyed by `u64`, viewed as a finite `Map`, with sums
//! over its values.
use vstd::prelude::*;

verus! {

/// The sum of `f` over the elements of `s`.
pub open spec fn sum_by<A>(s: Seq<A>, f: spec_fn(A) -> int) -> int
    decreases s.len(),
{
    if s.len() == 0 {
        0
    } else {
        sum_by(s.drop_last(), f) + f(s.last())
    }
}

pub proof fn lemma_sum_push<A>(s: Seq<A>, a: A, f: spec_fn(A) -> int)
    ensures
        sum_by(s.push(a), f) == sum_by(s, f) + f(a),
{
    assert(s.push(a).drop_last() =~= s);
}

pub proof fn lemma_sum_update<A>(s: Seq<A>, i: int, a: A, f: spec_fn(A) -> int)
    requires
        0 <= i < s.len(),
    ensures
        sum_by(s.update(i, a), f) == sum_by(s, f) - f(s[i]) + f(a),
    decreases s.len(),
{
    if i == s.len() - 1 {
        assert(s.update(i, a).drop_last() =~= s.drop_last());
    } else {
        lemma_sum_update(s.drop_last(), i, a, f);
        assert(s.update(i, a).drop_last() =~= s.drop_last().update(i, a));
    }
}

pub proof fn lemma_sum_remove<A>(s: Seq<A>, i: int, f: spec_fn(A) -> int)
    requires
        0 <= i < s.len(),
    ensures
        sum_by(s.remove(i), f) == sum_by(s, f) - f(s[i]),
    decreases s.len(),
{
    if i == s.len() - 1 {
        assert(s.remove(i) =~= s.drop_last());
    } else {
        lemma_sum_remove(s.drop_last(), i, f);
        assert(s.remove(i).drop_last() =~= s.drop_last().remove(i));
    }
}

/// With `f` never negative, the sum is at least each element plus any other.
pub proof fn lemma_sum_bounds<A>(s: Seq<A>, i: int, j: int, f: spec_fn(A) -> int)
    requires
        forall|a: A| #[trigger] f(a) >= 0,
        0 <= i < s.len(),
        0 <= j < s.len(),
    ensures
        0 <= f(s[i]) <= sum_by(s, f),
        i != j ==> f(s[i]) + f(s[j]) <= sum_by(s, f),
    decreases s.len(),
{
    lemma_sum_nonneg(s.drop_last(), f);
    if i != s.len() - 1 && j != s.len() - 1 {
        lemma_sum_bounds(s.drop_last(), i, j, f);
    } else if i != s.len() - 1 {
        lemma_sum_bounds(s.drop_last(), i, i, f);
    } else if j != s.len() - 1 {
        lemma_sum_bounds(s.drop_last(), j, j, f);
    }
}

/// A prefix of a sequence sums to at most the whole, with `f` never negative.
pub proof fn lemma_sum_prefix<A>(s: Seq<A>, i: int, f: spec_fn(A) -> int)
    requires
        forall|a: A| #[trigger] f(a) >= 0,
        0 <= i <= s.len(),
    ensures
        sum_by(s.subrange(0, i), f) <= sum_by(s, f),
    decreases s.len() - i,
{
    if i < s.len() {
        lemma_sum_prefix(s, i + 1, f);
        assert(s.subrange(0, i + 1).drop_last() =~= s.subrange(0, i));
    } else {
        assert(s.subrange(0, i) =~= s);
    }
}

pub proof fn lemma_sum_nonneg<A>(s: Seq<A>, f: spec_fn(A) -> int)
    requires
        forall|a: A| #[trigger] f(a) >= 0,
    ensures
        sum_by(s, f) >= 0,
    decreases s.len(),
{
    if s.len() > 0 {
        lemma_sum_nonneg(s.drop_last(), f);
    }
}

pub open spec fn keys_unique<V>(s: Seq<(u64, V)>) -> bool {
    forall|i: int, j: int|
        0 <= i < s.len() && 0 <= j < s.len() && i != j ==> s[i].0 != s[j].0
}

pub open spec fn has_key<V>(s: Seq<(u64, V)>, k: u64) -> bool {
    exists|i: int| 0 <= i < s.len() && s[i].0 == k
}

pub open spec fn seq_map<V>(s: Seq<(u64, V)>) -> Map<u64, V> {
    Map::new(
        |k: u64| has_key(s, k),
        |k: u64| s[choose|i: int| 0 <= i < s.len() && s[i].0 == k].1,
    )
}

proof fn lemma_seq_map_at<V>(s: Seq<(u64, V)>, i: int)
    requires
        keys_unique(s),
        0 <= i < s.len(),
    ensures
        seq_map(s).contains_key(s[i].0),
        seq_map(s)[s[i].0] == s[i].1,
{
    assert(has_key(s, s[i].0));
    let j = choose|j: int| 0 <= j < s.len() && s[j].0 == s[i].0;
    assert(j == i);
}

/// A table of values keyed by `u64`, each key at most once.
pub struct Table<V> {
    entries: Vec<(u64, V)>,
}

impl<V> View for Table<V> {
    type V = Map<u64, V>;

    closed spec fn view(&self) -> Map<u64, V> {
        seq_map(self.entries@)
    }
}

impl<V> Table<V> {
    pub closed spec fn wf(&self) -> bool {
        keys_unique(self.entries@)
    }

    /// The sum of `f` over the values of the table.
    pub closed spec fn total(&self, f: spec_fn(V) -> int) -> int {
        sum_by(self.entries@, |e: (u64, V)| f(e.1))
    }

    pub fn new() -> (r: Self)
        ensures
            r.wf(),
            r@ == Map::<u64, V>::empty(),
            forall|f: spec_fn(V) -> int| #[trigger] r.total(f) == 0,
    {
        let r = Table { entries: Vec::new() };
        assert(r@ =~= Map::<u64, V>::empty());
        r
    }

    fn index_of(&self, k: u64) -> (r: Option<usize>)
        requires
            self.wf(),
        ensures
            match r {
                Some(i) => i < self.entries@.len() && self.entries@[i as int].0 == k,
                None => !self@.contains_key(k),
            },
    {
        let mut i: usize = 0;
        while i < self.entries.len()
            invariant
                i <= self.entries@.len(),
                forall|j: int| 0 <= j < i ==> self.entries@[j].0 != k,
            decreases self.entries@.len() - i,
        {
            if self.entries[i].0 == k {
                return Some(i);
            }
            i = i + 1;
        }
        None
    }

    pub fn contains_key(&self, k: u64) -> (r: bool)
        requires
            self.wf(),
        ensures
            r == self@.contains_key(k),
    {
        match self.index_of(k) {
            Some(i) => {
                proof {
                    lemma_seq_map_at(self.entries@, i as int);
                }
                true
            },
            None => false,
        }
    }

    pub fn get(&self, k: u64) -> (r: Option<&V>)
        requires
            self.wf(),
        ensures
            r.is_some() == self@.contains_key(k),
            r.is_some() ==> *r.unwrap() == self@[k],
    {
        match self.index_of(k) {
            Some(i) => {
                proof {
                    lemma_seq_map_at(self.entries@, i as int);
                }
                Some(&self.entries[i].1)
            },
            None => None,
        }
    }

    pub fn insert(&mut self, k: u64, v: V)
        requires
            old(self).wf(),
        ensures
            final(self).wf(),
            final(self)@ == old(self)@.insert(k, v),
            forall|f: spec_fn(V) -> int|
                #[trigger] final(self).total(f) == old(self).total(f) - (if old(self)@.contains_key(
                    k,
                ) {
                    f(old(self)@[k])
                } else {
                    0
                }) + f(v),
    {
        let ghost s0 = self.entries@;
        match self.index_of(k) {
            Some(i) => {
                proof {
                    lemma_seq_map_at(s0, i as int);
                }
                self.entries.set(i, (k, v));
                proof {
                    let s1 = self.entries@;
                    assert(s1 == s0.update(i as int, (k, v)));
                    assert forall|x: u64| #[trigger] has_key(s1, x) == has_key(s0, x) by {
                        if has_key(s0, x) {
                            let j = choose|j: int| 0 <= j < s0.len() && s0[j].0 == x;
                            assert(s1[j].0 == x);
                        }
                        if has_key(s1, x) {
                            let j = choose|j: int| 0 <= j < s1.len() && s1[j].0 == x;
                            assert(s0[j].0 == x);
                        }
                    }
                    assert forall|x: u64| has_key(s1, x) implies seq_map(s1)[x] == seq_map(
                        s0,
                    ).insert(k, v)[x] by {
                        let j = choose|j: int| 0 <= j < s1.len() && s1[j].0 == x;
                        lemma_seq_map_at(s1, j);
                        if j != i {
                            lemma_seq_map_at(s0, j);
                        }
                    }
                    assert(self@ =~= old(self)@.insert(k, v));
                    assert forall|f: spec_fn(V) -> int|
                        #[trigger] self.total(f) == old(self).total(f) - (if old(self)@.contains_key(
                            k,
                        ) {
                            f(old(self)@[k])
                        } else {
                            0
                        }) + f(v) by {
                        lemma_sum_update(s0, i as int, (k, v), |e: (u64, V)| f(e.1));
                    }
                }
            },
            None => {
                self.entries.push((k, v));
                proof {
                    let s1 = self.entries@;
                    assert(s1 == s0.push((k, v)));
                    assert forall|x: u64| #[trigger] has_key(s1, x) == (has_key(s0, x) || x == k) by {
                        if has_key(s0, x) {
                            let j = choose|j: int| 0 <= j < s0.len() && s0[j].0 == x;
                            assert(s1[j].0 == x);
                        }
                        if x == k {
                            assert(s1[s0.len() as int].0 == x);
                        }
                        if has_key(s1, x) && x != k {
                            let j = choose|j: int| 0 <= j < s1.len() && s1[j].0 == x;
                            assert(s0[j].0 == x);
                        }
                    }
                    assert forall|x: u64| has_key(s1, x) implies seq_map(s1)[x] == seq_map(
                        s0,
                    ).insert(k, v)[x] by {
                        let j = choose|j: int| 0 <= j < s1.len() && s1[j].0 == x;
                        lemma_seq_map_at(s1, j);
                        if j != s0.len() {
                            lemma_seq_map_at(s0, j);
                        }
                    }
                    assert(self@ =~= old(self)@.insert(k, v));
                    assert forall|f: spec_fn(V) -> int|
                        #[trigger] self.total(f) == old(self).total(f) - (if old(self)@.contains_key(
                            k,
                        ) {
                            f(old(self)@[k])
                        } else {
                            0
                        }) + f(v) by {
                        lemma_sum_push(s0, (k, v), |e: (u64, V)| f(e.1));
                    }
                }
            },
        }
    }

    pub fn remove(&mut self, k: u64) -> (r: Option<V>)
        requires
            old(self).wf(),
        ensures
            final(self).wf(),
            final(self)@ == old(self)@.remove(k),
            r.is_some() == old(self)@.contains_key(k),
            r.is_some() ==> r.unwrap() == old(self)@[k],
            forall|f: spec_fn(V) -> int|
                #[trigger] final(self).total(f) == old(self).total(f) - (if old(self)@.contains_key(
                    k,
                ) {
                    f(old(self)@[k])
                } else {
                    0
                }),
    {
        let ghost s0 = self.entries@;
        match self.index_of(k) {
            Some(i) => {
                proof {
                    lemma_seq_map_at(s0, i as int);
                }
                let (_, v) = self.entries.remove(i);
                proof {
                    let s1 = self.entries@;
                    assert(s1 == s0.remove(i as int));
                    assert forall|x: u64| #[trigger] has_key(s1, x) == (has_key(s0, x) && x != k) by {
                        if has_key(s0, x) && x != k {
                            let j = choose|j: int| 0 <= j < s0.len() && s0[j].0 == x;
                            if j < i {
                                assert(s1[j].0 == x);
                            } else {
                                assert(s1[j - 1].0 == x);
                            }
                        }
                        if has_key(s1, x) {
                            let j = choose|j: int| 0 <= j < s1.len() && s1[j].0 == x;
                            if j < i {
                                assert(s0[j].0 == x);
                            } else {
                                assert(s0[j + 1].0 == x);
                            }
                        }
                    }
                    assert forall|x: u64| has_key(s1, x) implies seq_map(s1)[x] == seq_map(
                        s0,
                    )[x] by {
                        let j = choose|j: int| 0 <= j < s1.len() && s1[j].0 == x;
                        lemma_seq_map_at(s1, j);
                        if j < i {
                            lemma_seq_map_at(s0, j);
                        } else {
                            lemma_seq_map_at(s0, j + 1);
                        }
                    }
                    assert(self@ =~= old(self)@.remove(k));
                    assert forall|f: spec_fn(V) -> int|
                        #[trigger] self.total(f) == old(self).total(f) - (if old(self)@.contains_key(
                            k,
                        ) {
                            f(old(self)@[k])
                        } else {
                            0
                        }) by {
                        lemma_sum_remove(s0, i as int, |e: (u64, V)| f(e.1));
                    }
                }
                Some(v)
            },
            None => {
                assert(self@ =~= old(self)@.remove(k));
                None
            },
        }
    }

    /// The keys of the table, each once.
    pub fn keys(&self) -> (r: Vec<u64>)
        requires
            self.wf(),
        ensures
            r@.no_duplicates(),
            forall|k: u64| #[trigger] r@.contains(k) == self@.contains_key(k),
            r@.len() == self@.dom().len(),
    {
        let mut r: Vec<u64> = Vec::new();
        let mut i: usize = 0;
        while i < self.entries.len()
            invariant
                i <= self.entries@.len(),
                self.wf(),
                r@.len() == i,
                forall|j: int| 0 <= j < i ==> r@[j] == self.entries@[j].0,
            decreases self.entries@.len() - i,
        {
            r.push(self.entries[i].0);
            i = i + 1;
        }
        proof {
            assert forall|k: u64| #[trigger] r@.contains(k) == self@.contains_key(k) by {
                if r@.contains(k) {
                    let j = choose|j: int| 0 <= j < r@.len() && r@[j] == k;
                    assert(has_key(self.entries@, k));
                }
                if self@.contains_key(k) {
                    let j = choose|j: int| 0 <= j < self.entries@.len() && self.entries@[j].0 == k;
                    assert(r@[j] == k);
                }
            }
            assert forall|a: int, b: int| 0 <= a < r@.len() && 0 <= b < r@.len() && a != b implies r@[a]
                != r@[b] by {
                assert(self.entries@[a].0 != self.entries@[b].0);
            }
            r@.unique_seq_to_set();
            assert(r@.to_set() =~= self@.dom());
        }
        r
    }

    /// With `f` never negative, each value counts at most the total, and two
    /// values at different keys together too.
    pub proof fn lemma_total_bounds(&self, k1: u64, k2: u64, f: spec_fn(V) -> int)
        requires
            self.wf(),
            forall|v: V| #[trigger] f(v) >= 0,
            self@.contains_key(k1),
            self@.contains_key(k2),
        ensures
            0 <= f(self@[k1]) <= self.total(f),
            k1 != k2 ==> f(self@[k1]) + f(self@[k2]) <= self.total(f),
    {
        let s = self.entries@;
        let i = choose|i: int| 0 <= i < s.len() && s[i].0 == k1;
        let j = choose|j: int| 0 <= j < s.len() && s[j].0 == k2;
        lemma_seq_map_at(s, i);
        lemma_seq_map_at(s, j);
        lemma_sum_bounds(s, i, j, |e: (u64, V)| f(e.1));
    }

    /// The table holds as many keys as entries.
    proof fn lemma_len(&self)
        requires
            self.wf(),
        ensures
            self@.dom().finite(),
            self@.dom().len() == self.entries@.len(),
    {
        let ks = self.entries@.map_values(|e: (u64, V)| e.0);
        assert forall|a: int, b: int| 0 <= a < ks.len() && 0 <= b < ks.len() && a != b implies ks[a]
            != ks[b] by {
            assert(self.entries@[a].0 != self.entries@[b].0);
        }
        assert forall|k: u64| #[trigger] ks.to_set().contains(k) == self@.dom().contains(k) by {
            if ks.contains(k) {
                let j = choose|j: int| 0 <= j < ks.len() && ks[j] == k;
                assert(self.entries@[j].0 == k);
            }
            if has_key(self.entries@, k) {
                let j = choose|j: int| 0 <= j < self.entries@.len() && self.entries@[j].0 == k;
                assert(ks[j] == k);
            }
        }
        assert(ks.to_set() =~= self@.dom());
        ks.unique_seq_to_set();
        ks.lemma_cardinality_of_set();
    }

    pub proof fn lemma_dom_finite(&self)
        requires
            self.wf(),
        ensures
            self@.dom().finite(),
    {
        self.lemma_len();
    }

    /// How many keys the table holds.
    pub fn len(&self) -> (r: usize)
        requires
            self.wf(),
        ensures
            r == self@.dom().len(),
    {
        proof {
            self.lemma_len();
        }
        self.entries.len()
    }

    pub proof fn lemma_total_empty(&self, f: spec_fn(V) -> int)
        requires
            self@ == Map::<u64, V>::empty(),
        ensures
            self.total(f) == 0,
    {
        if self.entries@.len() > 0 {
            assert(has_key(self.entries@, self.entries@[0].0));
            assert(self@.contains_key(self.entries@[0].0));
        }
    }

    pub proof fn lemma_total_nonneg(&self, f: spec_fn(V) -> int)
        requires
            forall|v: V| #[trigger] f(v) >= 0,
        ensures
            self.total(f) >= 0,
    {
        lemma_sum_nonneg(self.entries@, |e: (u64, V)| f(e.1));
    }

}

} // verus!
