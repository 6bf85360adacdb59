use vstd::prelude::*;

verus! {

/// One height's worth of keys: the height and, in insertion order, the keys
/// of the records logged at it.
pub(crate) struct Bucket {
    pub(crate) height: u64,
    pub(crate) keys: Vec<u64>,
}

/// Where the bucket sequence has a bucket at the given height.
pub open spec fn height_at(s: Seq<(u64, Seq<u64>)>, h: u64) -> bool {
    exists|i: int| 0 <= i < s.len() && s[i].0 == h
}

/// The index of the bucket at the given height; meaningful only under
/// `distinct_heights` and `height_at`.
pub open spec fn index_of_height(s: Seq<(u64, Seq<u64>)>, h: u64) -> int {
    choose|i: int| 0 <= i < s.len() && s[i].0 == h
}

/// No two buckets of the sequence share a height.
pub open spec fn distinct_heights(s: Seq<(u64, Seq<u64>)>) -> bool {
    forall|i: int, j: int| 0 <= i < j < s.len() ==> s[i].0 != s[j].0
}

/// The bucket sequence read as a map from height to key sequence.
pub open spec fn as_height_map(s: Seq<(u64, Seq<u64>)>) -> Map<u64, Seq<u64>> {
    Map::new(|h: u64| height_at(s, h), |h: u64| s[index_of_height(s, h)].1)
}

/// The secondary index: for each height, the keys of the records logged at
/// it. Buckets sit in a vector, in insertion order; the abstract view is the
/// map from height to key sequence.
pub(crate) struct HeightIndex {
    buckets: Vec<Bucket>,
}

impl View for HeightIndex {
    type V = Map<u64, Seq<u64>>;

    closed spec fn view(&self) -> Map<u64, Seq<u64>> {
        as_height_map(self.entries())
    }
}

impl HeightIndex {
    /// The underlying sequence of buckets, in insertion order.
    pub(crate) closed spec fn entries(&self) -> Seq<(u64, Seq<u64>)> {
        self.buckets@.map_values(|b: Bucket| (b.height, b.keys@))
    }

    /// Heights are unique across the index.
    pub(crate) open spec fn wf(&self) -> bool {
        distinct_heights(self.entries())
    }

    pub(crate) proof fn lemma_entry_is_mapped(&self, i: int)
        requires
            self.wf(),
            0 <= i < self.entries().len(),
        ensures
            self@.dom().contains(self.entries()[i].0),
            self@[self.entries()[i].0] == self.entries()[i].1,
    {
        let s = self.entries();
        let h = s[i].0;
        assert(height_at(s, h));
        let j = index_of_height(s, h);
        assert(0 <= j < s.len() && s[j].0 == h);
        if i != j {
            if i < j {
                assert(s[i].0 != s[j].0);
            } else {
                assert(s[j].0 != s[i].0);
            }
        }
    }

    pub(crate) proof fn lemma_mapped_is_entry(&self, h: u64)
        requires
            self.wf(),
            self@.dom().contains(h),
        ensures
            0 <= index_of_height(self.entries(), h) < self.entries().len(),
            self.entries()[index_of_height(self.entries(), h)].0 == h,
            self.entries()[index_of_height(self.entries(), h)].1 == self@[h],
    {
        let s = self.entries();
        assert(height_at(s, h));
        let j = index_of_height(s, h);
        assert(0 <= j < s.len() && s[j].0 == h);
    }

    pub(crate) fn new() -> (r: HeightIndex)
        ensures
            r.wf(),
            r@ == Map::<u64, Seq<u64>>::empty(),
    {
        let r = HeightIndex { buckets: Vec::new() };
        proof {
            assert(r.entries() =~= Seq::<(u64, Seq<u64>)>::empty());
            assert(r@ =~= Map::<u64, Seq<u64>>::empty());
        }
        r
    }

    /// The position of the bucket at the given height, if one is present.
    fn find_index(&self, h: u64) -> (r: Option<usize>)
        ensures
            match r {
                Some(i) => 0 <= i < self.entries().len() && self.entries()[i as int].0 == h,
                None => !height_at(self.entries(), h),
            },
    {
        let ghost s = self.entries();
        let mut i: usize = 0;
        while i < self.buckets.len()
            invariant
                0 <= i <= self.buckets.len(),
                s == self.entries(),
                s.len() == self.buckets.len(),
                forall|j: int| 0 <= j < i ==> s[j].0 != h,
            decreases self.buckets.len() - i,
        {
            if self.buckets[i].height == h {
                return Some(i);
            }
            i += 1;
        }
        None
    }

    pub(crate) fn get(&self, h: u64) -> (r: Option<&Vec<u64>>)
        requires
            self.wf(),
        ensures
            match r {
                Some(v) => self@.dom().contains(h) && v@ == self@[h],
                None => !self@.dom().contains(h),
            },
    {
        match self.find_index(h) {
            Some(i) => {
                proof {
                    self.lemma_entry_is_mapped(i as int);
                }
                Some(&self.buckets[i].keys)
            },
            None => None,
        }
    }

    /// Logs a key at a height: appends to the bucket there, or opens a new
    /// bucket holding that key alone.
    pub(crate) fn push_key(&mut self, h: u64, k: u64)
        requires
            old(self).wf(),
        ensures
            final(self).wf(),
            final(self)@ == old(self)@.insert(
                h,
                if old(self)@.dom().contains(h) {
                    old(self)@[h].push(k)
                } else {
                    seq![k]
                },
            ),
    {
        let ghost s0 = self.entries();
        match self.find_index(h) {
            Some(i) => {
                proof {
                    self.lemma_entry_is_mapped(i as int);
                }
                let b = &mut self.buckets[i];
                b.keys.push(k);
                proof {
                    let v = old(self)@[h].push(k);
                    let s1 = self.entries();
                    assert(s1 =~= s0.update(i as int, (h, v)));
                    self.lemma_update_view(old(self), i as int, h, v);
                }
            },
            None => {
                let mut keys: Vec<u64> = Vec::new();
                keys.push(k);
                self.buckets.push(Bucket { height: h, keys });
                proof {
                    let s1 = self.entries();
                    assert(s1 =~= s0.push((h, seq![k])));
                    self.lemma_push_view(old(self), h, seq![k]);
                }
            },
        }
    }

    /// Sets the bucket at a height to hold one key alone, replacing any
    /// bucket already there.
    pub(crate) fn set_single(&mut self, h: u64, k: u64)
        requires
            old(self).wf(),
        ensures
            final(self).wf(),
            final(self)@ == old(self)@.insert(h, seq![k]),
    {
        let ghost s0 = self.entries();
        match self.find_index(h) {
            Some(i) => {
                proof {
                    self.lemma_entry_is_mapped(i as int);
                }
                let b = &mut self.buckets[i];
                b.keys.clear();
                b.keys.push(k);
                proof {
                    let s1 = self.entries();
                    assert(s1 =~= s0.update(i as int, (h, seq![k])));
                    self.lemma_update_view(old(self), i as int, h, seq![k]);
                }
            },
            None => {
                let mut keys: Vec<u64> = Vec::new();
                keys.push(k);
                self.buckets.push(Bucket { height: h, keys });
                proof {
                    let s1 = self.entries();
                    assert(s1 =~= s0.push((h, seq![k])));
                    self.lemma_push_view(old(self), h, seq![k]);
                }
            },
        }
    }

    /// Closes the bucket at a height and hands its keys back; an absent
    /// height is a silent no-op.
    pub(crate) fn remove(&mut self, h: u64) -> (r: Option<Vec<u64>>)
        requires
            old(self).wf(),
        ensures
            final(self).wf(),
            match r {
                Some(v) => old(self)@.dom().contains(h) && v@ == old(self)@[h] && final(self)@
                    == old(self)@.remove(h),
                None => !old(self)@.dom().contains(h) && *final(self) == *old(self),
            },
    {
        let ghost s0 = self.entries();
        match self.find_index(h) {
            Some(i) => {
                proof {
                    self.lemma_entry_is_mapped(i as int);
                }
                let b = self.buckets.remove(i);
                proof {
                    let s1 = self.entries();
                    assert(s1 =~= s0.remove(i as int));
                    assert forall|a: int, c: int| 0 <= a < c < s1.len() implies s1[a].0
                        != s1[c].0 by {
                        let a0 = if a < i { a } else { a + 1 };
                        let c0 = if c < i { c } else { c + 1 };
                        assert(s1[a] == s0[a0] && s1[c] == s0[c0]);
                    }
                    assert forall|q: u64| #[trigger]
                        height_at(s1, q) <==> old(self)@.remove(h).dom().contains(q) by {
                        if height_at(s1, q) {
                            let a = choose|a: int| 0 <= a < s1.len() && s1[a].0 == q;
                            let a0 = if a < i { a } else { a + 1 };
                            assert(s0[a0].0 == q);
                            assert(height_at(s0, q));
                            assert(q != h) by {
                                if a0 != i {
                                    assert(s0[a0].0 != s0[i as int].0);
                                }
                            }
                        }
                        if old(self)@.remove(h).dom().contains(q) {
                            let a0 = index_of_height(s0, q);
                            assert(s0[a0].0 == q);
                            assert(a0 != i);
                            let a = if a0 < i { a0 } else { a0 - 1 };
                            assert(s1[a].0 == q);
                        }
                    }
                    assert forall|q: u64| height_at(s1, q) implies #[trigger] as_height_map(s1)[q]
                        == old(self)@.remove(h)[q] by {
                        let a = index_of_height(s1, q);
                        assert(0 <= a < s1.len() && s1[a].0 == q);
                        let a0 = if a < i { a } else { a + 1 };
                        assert(s1[a] == s0[a0]);
                        assert(height_at(s0, q));
                        let b0 = index_of_height(s0, q);
                        if b0 != a0 {
                            assert(false);
                        }
                        old(self).lemma_entry_is_mapped(b0);
                        assert(q != h) by {
                            if a0 != i {
                                assert(s0[a0].0 != s0[i as int].0);
                            }
                        }
                    }
                    assert(final(self)@ =~= old(self)@.remove(h));
                }
                Some(b.keys)
            },
            None => {
                proof {
                    if old(self)@.dom().contains(h) {
                        old(self).lemma_mapped_is_entry(h);
                    }
                }
                None
            },
        }
    }

    /// How many buckets the index holds.
    pub(crate) fn len(&self) -> (r: usize)
        ensures
            r == self.entries().len(),
    {
        self.buckets.len()
    }

    /// A borrow of the bucket at a position, for walking the index in order.
    pub(crate) fn at(&self, i: usize) -> (r: &Bucket)
        requires
            i < self.entries().len(),
        ensures
            (r.height, r.keys@) == self.entries()[i as int],
    {
        &self.buckets[i]
    }

    proof fn lemma_update_view(&self, pre: &Self, i: int, h: u64, v: Seq<u64>)
        requires
            pre.wf(),
            0 <= i < pre.entries().len(),
            pre.entries()[i].0 == h,
            self.entries() == pre.entries().update(i, (h, v)),
        ensures
            self.wf(),
            self@ == pre@.insert(h, v),
    {
        let s0 = pre.entries();
        let s1 = self.entries();
        assert(distinct_heights(s1));
        assert forall|q: u64| #[trigger]
            height_at(s1, q) <==> pre@.insert(h, v).dom().contains(q) by {
            if height_at(s1, q) {
                let a = choose|a: int| 0 <= a < s1.len() && s1[a].0 == q;
                if a != i {
                    assert(s0[a].0 == q);
                    assert(height_at(s0, q));
                }
            }
            if pre@.insert(h, v).dom().contains(q) {
                if q == h {
                    assert(s1[i].0 == q);
                } else {
                    let a = index_of_height(s0, q);
                    assert(a != i);
                    assert(s1[a].0 == q);
                }
            }
        }
        assert forall|q: u64| height_at(s1, q) implies #[trigger] as_height_map(s1)[q]
            == pre@.insert(h, v)[q] by {
            let a = index_of_height(s1, q);
            assert(0 <= a < s1.len() && s1[a].0 == q);
            if a == i {
                assert(q == h);
            } else {
                assert(s1[a] == s0[a]);
                assert(height_at(s0, q));
                let b = index_of_height(s0, q);
                if b != a {
                    assert(false);
                }
                pre.lemma_entry_is_mapped(b);
                assert(q != h) by {
                    assert(s0[i].0 == h);
                }
            }
        }
        assert(self@ =~= pre@.insert(h, v));
    }

    proof fn lemma_push_view(&self, pre: &Self, h: u64, v: Seq<u64>)
        requires
            pre.wf(),
            !height_at(pre.entries(), h),
            self.entries() == pre.entries().push((h, v)),
        ensures
            self.wf(),
            self@ == pre@.insert(h, v),
    {
        let s0 = pre.entries();
        let s1 = self.entries();
        assert forall|a: int, b: int| 0 <= a < b < s1.len() implies s1[a].0 != s1[b].0 by {
            if b == s1.len() - 1 {
                assert(s1[a] == s0[a]);
                if s1[a].0 == h {
                    assert(height_at(s0, h));
                }
            }
        }
        assert forall|q: u64| #[trigger]
            height_at(s1, q) <==> pre@.insert(h, v).dom().contains(q) by {
            if height_at(s1, q) {
                let a = choose|a: int| 0 <= a < s1.len() && s1[a].0 == q;
                if a < s0.len() {
                    assert(s0[a].0 == q);
                    assert(height_at(s0, q));
                }
            }
            if pre@.insert(h, v).dom().contains(q) {
                if q == h {
                    assert(s1[s1.len() - 1].0 == q);
                } else {
                    let a = index_of_height(s0, q);
                    assert(s1[a].0 == q);
                }
            }
        }
        assert forall|q: u64| height_at(s1, q) implies #[trigger] as_height_map(s1)[q]
            == pre@.insert(h, v)[q] by {
            let a = index_of_height(s1, q);
            assert(0 <= a < s1.len() && s1[a].0 == q);
            if a == s1.len() - 1 {
                assert(q == h);
            } else {
                assert(s1[a] == s0[a]);
                assert(height_at(s0, q));
                let b = index_of_height(s0, q);
                if b != a {
                    assert(false);
                }
                pre.lemma_entry_is_mapped(b);
                assert(q != h) by {
                    assert(!height_at(s0, h));
                }
            }
        }
        assert(self@ =~= pre@.insert(h, v));
    }
}

} // verus!
