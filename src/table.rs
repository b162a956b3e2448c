use vstd::prelude::*;

verus! {

/// The keys are pairwise distinct as character sequences.
pub open spec fn keys_unique(ks: Seq<String>) -> bool {
    forall|i: int, j: int| 0 <= i < ks.len() && 0 <= j < ks.len() && i != j ==> ks[i]@ != ks[j]@
}

/// The map that a list of key/value pairs denotes; a later key shadows an earlier one.
pub open spec fn entries_map<V>(ks: Seq<String>, vs: Seq<V>) -> Map<Seq<char>, V>
    decreases ks.len(),
{
    if ks.len() == 0 || vs.len() == 0 {
        Map::empty()
    } else {
        entries_map(ks.drop_last(), vs.drop_last()).insert(ks.last()@, vs.last())
    }
}

pub proof fn lemma_entries_map_index<V>(ks: Seq<String>, vs: Seq<V>)
    requires
        ks.len() == vs.len(),
        keys_unique(ks),
    ensures
        forall|i: int| 0 <= i < ks.len() ==> #[trigger] entries_map(ks, vs).contains_key(ks[i]@)
            && entries_map(ks, vs)[ks[i]@] == vs[i],
        forall|k: Seq<char>| #[trigger] entries_map(ks, vs).contains_key(k) ==> exists|i: int|
            0 <= i < ks.len() && ks[i]@ == k,
    decreases ks.len(),
{
    if ks.len() > 0 {
        let ks0 = ks.drop_last();
        let vs0 = vs.drop_last();
        lemma_entries_map_index(ks0, vs0);
        assert forall|k: Seq<char>| #[trigger] entries_map(ks, vs).contains_key(k) implies exists|i: int|
            0 <= i < ks.len() && ks[i]@ == k by {
            if k != ks.last()@ {
                assert(entries_map(ks0, vs0).contains_key(k));
                let i = choose|i: int| 0 <= i < ks0.len() && ks0[i]@ == k;
                assert(ks0[i] == ks[i]);
                assert(ks[i]@ == k);
            } else {
                assert(ks[ks.len() - 1]@ == k);
            }
        }
        assert forall|i: int| 0 <= i < ks.len() implies #[trigger] entries_map(ks, vs).contains_key(ks[i]@)
            && entries_map(ks, vs)[ks[i]@] == vs[i] by {
            if i < ks.len() - 1 {
                assert(ks0[i] == ks[i]);
                assert(vs0[i] == vs[i]);
                assert(entries_map(ks0, vs0).contains_key(ks0[i]@));
                assert(ks[i]@ != ks[ks.len() - 1]@);
            } else {
                assert(ks[i] == ks.last());
                assert(vs[i] == vs.last());
            }
        }
    }
}

pub proof fn lemma_entries_map_update<V>(ks: Seq<String>, vs: Seq<V>, i: int, v: V)
    requires
        ks.len() == vs.len(),
        keys_unique(ks),
        0 <= i < ks.len(),
    ensures
        entries_map(ks, vs.update(i, v)) == entries_map(ks, vs).insert(ks[i]@, v),
    decreases ks.len(),
{
    let vs1 = vs.update(i, v);
    let ks0 = ks.drop_last();
    assert(vs1.drop_last() =~= if i == ks.len() - 1 { vs.drop_last() } else { vs.drop_last().update(i, v) });
    if i < ks.len() - 1 {
        lemma_entries_map_update(ks0, vs.drop_last(), i, v);
        assert(ks0[i] == ks[i]);
        assert(ks[i]@ != ks.last()@);
        assert(entries_map(ks, vs1) =~= entries_map(ks, vs).insert(ks[i]@, v));
    } else {
        assert(entries_map(ks, vs1) =~= entries_map(ks, vs).insert(ks[i]@, v));
    }
}

pub proof fn lemma_entries_map_remove<V>(ks: Seq<String>, vs: Seq<V>, i: int)
    requires
        ks.len() == vs.len(),
        keys_unique(ks),
        0 <= i < ks.len(),
    ensures
        entries_map(ks.remove(i), vs.remove(i)) == entries_map(ks, vs).remove(ks[i]@),
        keys_unique(ks.remove(i)),
    decreases ks.len(),
{
    let ks0 = ks.drop_last();
    let vs0 = vs.drop_last();
    lemma_entries_map_index(ks0, vs0);
    if i == ks.len() - 1 {
        assert(ks.remove(i) =~= ks0);
        assert(vs.remove(i) =~= vs0);
        assert(!entries_map(ks0, vs0).contains_key(ks[i]@)) by {
            if entries_map(ks0, vs0).contains_key(ks[i]@) {
                let j = choose|j: int| 0 <= j < ks0.len() && ks0[j]@ == ks[i]@;
                assert(ks[j]@ == ks[i]@);
            }
        }
        assert(entries_map(ks.remove(i), vs.remove(i)) =~= entries_map(ks, vs).remove(ks[i]@));
    } else {
        lemma_entries_map_remove(ks0, vs0, i);
        assert(ks.remove(i).drop_last() =~= ks0.remove(i));
        assert(vs.remove(i).drop_last() =~= vs0.remove(i));
        assert(ks.remove(i).last() == ks.last());
        assert(vs.remove(i).last() == vs.last());
        assert(ks0[i] == ks[i]);
        assert(ks[i]@ != ks.last()@);
        assert(entries_map(ks.remove(i), vs.remove(i)) =~= entries_map(ks, vs).remove(ks[i]@));
    }
    assert forall|a: int, b: int| 0 <= a < ks.remove(i).len() && 0 <= b < ks.remove(i).len() && a != b
        implies ks.remove(i)[a]@ != ks.remove(i)[b]@ by {
        let a0 = if a < i { a } else { a + 1 };
        let b0 = if b < i { b } else { b + 1 };
        assert(ks.remove(i)[a] == ks[a0]);
        assert(ks.remove(i)[b] == ks[b0]);
    }
}

/// A finite map from string keys to values.
pub struct Table<V> {
    keys: Vec<String>,
    vals: Vec<V>,
}

impl<V> View for Table<V> {
    type V = Map<Seq<char>, V>;

    closed spec fn view(&self) -> Map<Seq<char>, V> {
        entries_map(self.keys@, self.vals@)
    }
}

impl<V> Table<V> {
    pub closed spec fn wf(&self) -> bool {
        &&& self.keys@.len() == self.vals@.len()
        &&& keys_unique(self.keys@)
    }

    /// The keys in storage order.
    pub closed spec fn key_seq(&self) -> Seq<String> {
        self.keys@
    }

    /// The values in storage order.
    pub closed spec fn val_seq(&self) -> Seq<V> {
        self.vals@
    }

    pub proof fn lemma_key_seq(&self)
        requires
            self.wf(),
        ensures
            self.val_seq().len() == self.key_seq().len(),
            forall|i: int| 0 <= i < self.key_seq().len() ==> #[trigger] self@[self.key_seq()[i]@]
                == self.val_seq()[i],
            forall|i: int| 0 <= i < self.key_seq().len() ==> #[trigger] self@.contains_key(
                self.key_seq()[i]@,
            ),
            forall|k: Seq<char>| #[trigger] self@.contains_key(k) ==> exists|i: int|
                0 <= i < self.key_seq().len() && self.key_seq()[i]@ == k,
            keys_unique(self.key_seq()),
    {
        lemma_entries_map_index(self.keys@, self.vals@);
        assert forall|i: int| 0 <= i < self.key_seq().len() implies #[trigger] self@[self.key_seq()[i]@]
            == self.val_seq()[i] by {
            assert(entries_map(self.keys@, self.vals@).contains_key(self.keys@[i]@));
        }
        assert forall|k: Seq<char>| #[trigger] self@.contains_key(k) implies exists|i: int|
            0 <= i < self.key_seq().len() && self.key_seq()[i]@ == k by {
            assert(entries_map(self.keys@, self.vals@).contains_key(k));
            let i = choose|i: int| 0 <= i < self.keys@.len() && self.keys@[i]@ == k;
            assert(self.key_seq()[i]@ == k);
        }
    }

    pub fn new() -> (r: Self)
        ensures
            r.wf(),
            r@ == Map::<Seq<char>, V>::empty(),
    {
        Table { keys: Vec::new(), vals: Vec::new() }
    }

    pub fn len(&self) -> (r: usize)
        requires
            self.wf(),
        ensures
            r == self.key_seq().len(),
    {
        self.keys.len()
    }

    pub fn key_at(&self, i: usize) -> (r: &String)
        requires
            self.wf(),
            i < self.key_seq().len(),
        ensures
            *r == self.key_seq()[i as int],
    {
        &self.keys[i]
    }

    pub fn value_at(&self, i: usize) -> (r: &V)
        requires
            self.wf(),
            i < self.key_seq().len(),
        ensures
            *r == self.val_seq()[i as int],
    {
        &self.vals[i]
    }

    fn find(&self, k: &String) -> (r: Option<usize>)
        requires
            self.wf(),
        ensures
            match r {
                Some(i) => i < self.keys@.len() && self.keys@[i as int]@ == k@,
                None => !self@.contains_key(k@),
            },
    {
        proof {
            lemma_entries_map_index(self.keys@, self.vals@);
        }
        let mut i: usize = 0;
        while i < self.keys.len()
            invariant
                i <= self.keys@.len(),
                forall|j: int| 0 <= j < i ==> self.keys@[j]@ != k@,
            decreases self.keys@.len() - i,
        {
            if self.keys[i] == *k {
                return Some(i);
            }
            i = i + 1;
        }
        None
    }

    pub fn contains(&self, k: &String) -> (r: bool)
        requires
            self.wf(),
        ensures
            r == self@.contains_key(k@),
    {
        proof {
            lemma_entries_map_index(self.keys@, self.vals@);
        }
        self.find(k).is_some()
    }

    pub fn get(&self, k: &String) -> (r: Option<&V>)
        requires
            self.wf(),
        ensures
            match r {
                Some(v) => self@.contains_key(k@) && *v == self@[k@],
                None => !self@.contains_key(k@),
            },
    {
        proof {
            lemma_entries_map_index(self.keys@, self.vals@);
        }
        match self.find(k) {
            Some(i) => {
                assert(self@.contains_key(self.keys@[i as int]@));
                Some(&self.vals[i])
            },
            None => None,
        }
    }

    pub fn insert(&mut self, k: String, v: V)
        requires
            old(self).wf(),
        ensures
            final(self).wf(),
            final(self)@ == old(self)@.insert(k@, v),
            old(self)@.contains_key(k@) ==> final(self).key_seq() == old(self).key_seq(),
            !old(self)@.contains_key(k@) ==> final(self).key_seq() == old(self).key_seq().push(k),
    {
        match self.find(&k) {
            Some(i) => {
                proof {
                    lemma_entries_map_index(self.keys@, self.vals@);
                    assert(self@.contains_key(self.keys@[i as int]@));
                    lemma_entries_map_update(self.keys@, self.vals@, i as int, v);
                }
                self.vals.set(i, v);
            },
            None => {
                proof {
                    lemma_entries_map_index(self.keys@, self.vals@);
                }
                let ghost ks = self.keys@;
                let ghost vs = self.vals@;
                let ghost kk = k;
                self.keys.push(k);
                assert(self.keys@ == ks.push(kk));
                self.vals.push(v);
                proof {
                    assert(self.keys@.drop_last() =~= ks);
                    assert(self.vals@.drop_last() =~= vs);
                    assert forall|a: int, b: int|
                        0 <= a < self.keys@.len() && 0 <= b < self.keys@.len() && a != b
                        implies self.keys@[a]@ != self.keys@[b]@ by {
                        if a < ks.len() && b < ks.len() {
                        } else if a < ks.len() {
                            assert(entries_map(ks, vs).contains_key(ks[a]@));
                        } else {
                            assert(entries_map(ks, vs).contains_key(ks[b]@));
                        }
                    }
                }
            },
        }
    }

    pub fn remove(&mut self, k: &String) -> (r: Option<V>)
        requires
            old(self).wf(),
        ensures
            final(self).wf(),
            final(self)@ == old(self)@.remove(k@),
            match r {
                Some(v) => old(self)@.contains_key(k@) && v == old(self)@[k@],
                None => !old(self)@.contains_key(k@),
            },
    {
        match self.find(k) {
            Some(i) => {
                proof {
                    lemma_entries_map_index(self.keys@, self.vals@);
                    lemma_entries_map_remove(self.keys@, self.vals@, i as int);
                }
                self.keys.remove(i);
                let v = self.vals.remove(i);
                Some(v)
            },
            None => {
                proof {
                    assert(self@.remove(k@) =~= self@);
                }
                None
            },
        }
    }
}

} // verus!
