//! A table from text keys to values that holds each key at most once, viewed
//! as a map; its entries keep the order in which their keys came in.

use vstd::prelude::*;

verus! {

pub struct Table<V> {
    keys: Vec<String>,
    vals: Vec<V>,
}

/// The keys of `pairs` whose value is at most `now`, in the order of `pairs`.
pub open spec fn due_order(pairs: Seq<(Seq<char>, i64)>, now: i64) -> Seq<Seq<char>>
    decreases pairs.len(),
{
    if pairs.len() == 0 {
        Seq::empty()
    } else {
        let rest = due_order(pairs.drop_last(), now);
        if pairs.last().1 <= now {
            rest.push(pairs.last().0)
        } else {
            rest
        }
    }
}

impl<V: View> Table<V> {
    pub closed spec fn wf(&self) -> bool {
        &&& self.keys@.len() == self.vals@.len()
        &&& forall|i: int, j: int|
            0 <= i < self.keys@.len() && 0 <= j < self.keys@.len() && i != j ==> self.keys@[i]@
                != self.keys@[j]@
    }

    pub closed spec fn index_of(&self, k: Seq<char>) -> int {
        choose|i: int| 0 <= i < self.keys@.len() && self.keys@[i]@ == k
    }

    pub closed spec fn view(&self) -> Map<Seq<char>, V::V> {
        Map::new(
            |k: Seq<char>| exists|i: int| 0 <= i < self.keys@.len() && self.keys@[i]@ == k,
            |k: Seq<char>| self.vals@[self.index_of(k)]@,
        )
    }

    /// The entries, keys with the views of their values, in table order.
    pub closed spec fn pairs(&self) -> Seq<(Seq<char>, V::V)> {
        Seq::new(self.keys@.len(), |i: int| (self.keys@[i]@, self.vals@[i]@))
    }

    proof fn lemma_index(&self, i: int)
        requires
            self.wf(),
            0 <= i < self.keys@.len(),
        ensures
            self.view().contains_key(self.keys@[i]@),
            self.view()[self.keys@[i]@] == self.vals@[i]@,
            self.index_of(self.keys@[i]@) == i,
    {
        let k = self.keys@[i]@;
        assert(exists|j: int| 0 <= j < self.keys@.len() && self.keys@[j]@ == k);
        let j = self.index_of(k);
        assert(self.keys@[j]@ == k);
    }

    pub proof fn lemma_pairs(&self)
        requires
            self.wf(),
        ensures
            self.pairs().len() == self.view().dom().len(),
            forall|i: int| #![trigger self.pairs()[i]]
                0 <= i < self.pairs().len() ==> self.view().contains_key(self.pairs()[i].0)
                    && self.view()[self.pairs()[i].0] == self.pairs()[i].1,
            forall|k: Seq<char>| #[trigger]
                self.view().contains_key(k) ==> exists|i: int|
                    0 <= i < self.pairs().len() && self.pairs()[i].0 == k,
            forall|i: int, j: int|
                0 <= i < self.pairs().len() && 0 <= j < self.pairs().len() && i != j
                    ==> self.pairs()[i].0 != self.pairs()[j].0,
    {
        assert forall|i: int| #![trigger self.pairs()[i]] 0 <= i < self.pairs().len() implies self.view().contains_key(
            self.pairs()[i].0,
        ) && self.view()[self.pairs()[i].0] == self.pairs()[i].1 by {
            self.lemma_index(i);
        }
        assert forall|k: Seq<char>| #[trigger] self.view().contains_key(k) implies exists|i: int|
            0 <= i < self.pairs().len() && self.pairs()[i].0 == k by {
            let i = self.index_of(k);
            assert(self.pairs()[i].0 == k);
        }
        let ks = self.pairs().map_values(|e: (Seq<char>, V::V)| e.0);
        assert(ks.no_duplicates());
        ks.unique_seq_to_set();
        assert(ks.to_set() =~= self.view().dom()) by {
            assert forall|k: Seq<char>| ks.to_set().contains(k) implies self.view().dom().contains(k) by {
                let i = choose|i: int| 0 <= i < ks.len() && ks[i] == k;
                self.lemma_index(i);
            }
            assert forall|k: Seq<char>| self.view().dom().contains(k) implies ks.to_set().contains(k) by {
                let i = self.index_of(k);
                assert(ks[i] == k);
            }
        }
    }

    pub fn new() -> (r: Self)
        ensures
            r.wf(),
            r@ == Map::<Seq<char>, V::V>::empty(),
            r.pairs() == Seq::<(Seq<char>, V::V)>::empty(),
    {
        let r = Table { keys: Vec::new(), vals: Vec::new() };
        assert(r@ =~= Map::<Seq<char>, V::V>::empty());
        assert(r.pairs() =~= Seq::<(Seq<char>, V::V)>::empty());
        r
    }

    fn find(&self, k: &String) -> (r: Option<usize>)
        requires
            self.wf(),
        ensures
            r matches Some(i) ==> i < self.keys@.len() && self.keys@[i as int]@ == k@,
            r is None ==> !self@.contains_key(k@),
    {
        let mut i: usize = 0;
        while i < self.keys.len()
            invariant
                i <= self.keys@.len(),
                forall|j: int| 0 <= j < i ==> self.keys@[j]@ != k@,
            decreases self.keys@.len() - i,
        {
            if self.keys[i] == *k {
                return Some(i);
            }
            i = i + 1;
        }
        None
    }

    pub fn contains(&self, k: &String) -> (r: bool)
        requires
            self.wf(),
        ensures
            r == self@.contains_key(k@),
    {
        match self.find(k) {
            Some(i) => {
                proof {
                    self.lemma_index(i as int);
                }
                true
            },
            None => false,
        }
    }

    pub fn get(&self, k: &String) -> (r: Option<&V>)
        requires
            self.wf(),
        ensures
            r matches Some(v) ==> self@.contains_key(k@) && v@ == self@[k@],
            r is None ==> !self@.contains_key(k@),
    {
        match self.find(k) {
            Some(i) => {
                proof {
                    self.lemma_index(i as int);
                }
                Some(&self.vals[i])
            },
            None => None,
        }
    }

    pub fn insert(&mut self, k: String, v: V)
        requires
            old(self).wf(),
        ensures
            final(self).wf(),
            final(self)@ == old(self)@.insert(k@, v@),
    {
        match self.find(&k) {
            Some(i) => {
                self.vals.set(i, v);
                proof {
                    let o = *old(self);
                    assert forall|k2: Seq<char>| #[trigger] self@.contains_key(k2) == o@.insert(k@, v@).contains_key(k2) by {
                        if o@.contains_key(k2) {
                            o.lemma_index(o.index_of(k2));
                        }
                    }
                    assert forall|k2: Seq<char>| #[trigger] self@.contains_key(k2) implies self@[k2] == o@.insert(k@, v@)[k2] by {
                        let j = self.index_of(k2);
                        self.lemma_index(j);
                        if j != i {
                            o.lemma_index(j);
                        }
                    }
                    assert(self@ =~= o@.insert(k@, v@));
                }
            },
            None => {
                self.keys.push(k);
                self.vals.push(v);
                proof {
                    let o = *old(self);
                    let n = o.keys@.len() as int;
                    assert forall|k2: Seq<char>| #[trigger] self@.contains_key(k2) == o@.insert(k@, v@).contains_key(k2) by {
                        if o@.contains_key(k2) {
                            o.lemma_index(o.index_of(k2));
                            assert(self.keys@[o.index_of(k2)] == o.keys@[o.index_of(k2)]);
                        }
                        if k2 == k@ {
                            assert(self.keys@[n]@ == k2);
                        }
                    }
                    assert forall|k2: Seq<char>| #[trigger] self@.contains_key(k2) implies self@[k2] == o@.insert(k@, v@)[k2] by {
                        let j = self.index_of(k2);
                        self.lemma_index(j);
                        if j != n {
                            assert(o.keys@[j] == self.keys@[j]);
                            o.lemma_index(j);
                        }
                    }
                    assert(self@ =~= o@.insert(k@, v@));
                }
            },
        }
    }

    pub fn remove(&mut self, k: &String)
        requires
            old(self).wf(),
        ensures
            final(self).wf(),
            final(self)@ == old(self)@.remove(k@),
    {
        match self.find(k) {
            Some(i) => {
                self.keys.remove(i);
                self.vals.remove(i);
                proof {
                    let o = *old(self);
                    assert forall|a: int, b: int|
                        0 <= a < self.keys@.len() && 0 <= b < self.keys@.len() && a != b implies self.keys@[a]@
                            != self.keys@[b]@ by {
                        let oa = if a < i { a } else { a + 1 };
                        let ob = if b < i { b } else { b + 1 };
                        assert(self.keys@[a] == o.keys@[oa]);
                        assert(self.keys@[b] == o.keys@[ob]);
                    }
                    assert forall|k2: Seq<char>| #[trigger] self@.contains_key(k2) == o@.remove(k@).contains_key(k2) by {
                        if o@.contains_key(k2) && k2 != k@ {
                            let j = o.index_of(k2);
                            o.lemma_index(j);
                            let nj = if j < i { j } else { j - 1 };
                            assert(self.keys@[nj] == o.keys@[j]);
                        }
                        if self@.contains_key(k2) {
                            let j = self.index_of(k2);
                            let oj = if j < i { j } else { j + 1 };
                            assert(self.keys@[j] == o.keys@[oj]);
                            o.lemma_index(i as int);
                        }
                    }
                    assert forall|k2: Seq<char>| #[trigger] self@.contains_key(k2) implies self@[k2] == o@.remove(k@)[k2] by {
                        let j = self.index_of(k2);
                        self.lemma_index(j);
                        let oj = if j < i { j } else { j + 1 };
                        assert(self.keys@[j] == o.keys@[oj]);
                        assert(self.vals@[j] == o.vals@[oj]);
                        o.lemma_index(oj);
                    }
                    assert(self@ =~= o@.remove(k@));
                }
            },
            None => {
                assert(self@ =~= old(self)@.remove(k@));
            },
        }
    }

    /// Drops every entry.
    pub fn clear(&mut self)
        ensures
            final(self).wf(),
            final(self)@ == Map::<Seq<char>, V::V>::empty(),
    {
        self.keys.clear();
        self.vals.clear();
        assert(self@ =~= Map::<Seq<char>, V::V>::empty());
    }
}

/// The texts of `v`, as character sequences.
pub open spec fn texts(v: Seq<String>) -> Seq<Seq<char>> {
    v.map_values(|s: String| s@)
}

pub proof fn lemma_due_order(pairs: Seq<(Seq<char>, i64)>, now: i64)
    ensures
        forall|k: Seq<char>| #[trigger] due_order(pairs, now).contains(k) <==> exists|i: int|
            0 <= i < pairs.len() && pairs[i].0 == k && pairs[i].1 <= now,
        (forall|i: int, j: int|
            0 <= i < pairs.len() && 0 <= j < pairs.len() && i != j ==> pairs[i].0 != pairs[j].0)
            ==> due_order(pairs, now).no_duplicates(),
    decreases pairs.len(),
{
    if pairs.len() > 0 {
        let d = pairs.drop_last();
        lemma_due_order(d, now);
        let r = due_order(pairs, now);
        assert forall|k: Seq<char>| #[trigger] r.contains(k) <==> exists|i: int|
            0 <= i < pairs.len() && pairs[i].0 == k && pairs[i].1 <= now by {
            if r.contains(k) {
                if due_order(d, now).contains(k) {
                    let i = choose|i: int| 0 <= i < d.len() && d[i].0 == k && d[i].1 <= now;
                    assert(pairs[i] == d[i]);
                } else {
                    assert(pairs[pairs.len() - 1].0 == k);
                }
            }
            if exists|i: int| 0 <= i < pairs.len() && pairs[i].0 == k && pairs[i].1 <= now {
                let i = choose|i: int| 0 <= i < pairs.len() && pairs[i].0 == k && pairs[i].1 <= now;
                if i < pairs.len() - 1 {
                    assert(d[i] == pairs[i]);
                    assert(due_order(d, now).contains(k));
                    if pairs.last().1 <= now {
                        assert(r[due_order(d, now).index_of(k)] == k);
                    }
                } else {
                    assert(r.last() == k);
                }
            }
        }
        if forall|i: int, j: int|
            0 <= i < pairs.len() && 0 <= j < pairs.len() && i != j ==> pairs[i].0 != pairs[j].0 {
            assert(forall|i: int, j: int|
                0 <= i < d.len() && 0 <= j < d.len() && i != j ==> #[trigger] d[i].0 != #[trigger] d[j].0) by {
                assert forall|i: int, j: int|
                    0 <= i < d.len() && 0 <= j < d.len() && i != j implies d[i].0 != d[j].0 by {
                    assert(d[i] == pairs[i] && d[j] == pairs[j]);
                }
            }
            if pairs.last().1 <= now {
                let rest = due_order(d, now);
                assert(!rest.contains(pairs.last().0)) by {
                    if rest.contains(pairs.last().0) {
                        let i = choose|i: int| 0 <= i < d.len() && d[i].0 == pairs.last().0 && d[i].1 <= now;
                        assert(d[i] == pairs[i]);
                    }
                }
                assert forall|a: int, b: int| 0 <= a < r.len() && 0 <= b < r.len() && a != b implies r[a] != r[b] by {
                    if a < rest.len() && b < rest.len() {
                        assert(r[a] == rest[a] && r[b] == rest[b]);
                    } else if a < rest.len() {
                        assert(r[a] == rest[a]);
                        assert(rest.contains(r[a]));
                    } else if b < rest.len() {
                        assert(r[b] == rest[b]);
                        assert(rest.contains(r[b]));
                    }
                }
            }
        }
    }
}

impl Table<i64> {
    /// The keys whose value is at most `now`, in table order.
    pub fn due_keys(&self, now: i64) -> (r: Vec<String>)
        requires
            self.wf(),
        ensures
            texts(r@) == due_order(self.pairs(), now),
    {
        let mut r: Vec<String> = Vec::new();
        let mut i: usize = 0;
        while i < self.keys.len()
            invariant
                self.wf(),
                i <= self.keys@.len(),
                texts(r@) == due_order(self.pairs().subrange(0, i as int), now),
            decreases self.keys@.len() - i,
        {
            let ghost p = self.pairs().subrange(0, i + 1);
            proof {
                assert(p.drop_last() =~= self.pairs().subrange(0, i as int));
                assert(p.last() == (self.keys@[i as int]@, self.vals@[i as int]));
            }
            if self.vals[i] <= now {
                r.push(self.keys[i].clone());
                assert(texts(r@) =~= due_order(p, now));
            }
            i = i + 1;
        }
        assert(self.pairs().subrange(0, self.keys@.len() as int) =~= self.pairs());
        r
    }
}

} // verus!
