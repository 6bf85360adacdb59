use crate::node::NodeView;
use crate::node::ReorgNode;
use vstd::prelude::*;

verus! {

/// Where a sequence of record images has a record with the given key.
pub open spec fn key_at<M>(s: Seq<NodeView<M>>, k: u64) -> bool {
    exists|i: int| 0 <= i < s.len() && s[i].key == k
}

/// The index of the record with the given key; meaningful only under
/// `distinct_keys` and `key_at`.
pub open spec fn index_of_key<M>(s: Seq<NodeView<M>>, k: u64) -> int {
    choose|i: int| 0 <= i < s.len() && s[i].key == k
}

/// No two records of the sequence share a key.
pub open spec fn distinct_keys<M>(s: Seq<NodeView<M>>) -> bool {
    forall|i: int, j: int| 0 <= i < j < s.len() ==> s[i].key != s[j].key
}

/// The sequence of record images read as a map from key to record.
pub open spec fn as_key_map<M>(s: Seq<NodeView<M>>) -> Map<u64, NodeView<M>> {
    Map::new(|k: u64| key_at(s, k), |k: u64| s[index_of_key(s, k)])
}

/// An arena of records, keyed by each record's own key. The records sit in a
/// vector, in insertion order; the abstract view is the map from key to
/// record image.
pub(crate) struct NodeStore<M> {
    nodes: Vec<ReorgNode<M>>,
}

impl<M> View for NodeStore<M> {
    type V = Map<u64, NodeView<M>>;

    closed spec fn view(&self) -> Map<u64, NodeView<M>> {
        as_key_map(self.entries())
    }
}

impl<M> NodeStore<M> {
    /// The underlying sequence of record images, in insertion order.
    pub(crate) closed spec fn entries(&self) -> Seq<NodeView<M>> {
        self.nodes@.map_values(|n: ReorgNode<M>| n@)
    }

    /// Keys are unique across the arena.
    pub(crate) open spec fn wf(&self) -> bool {
        distinct_keys(self.entries())
    }

    pub(crate) proof fn lemma_entry_is_mapped(&self, i: int)
        requires
            self.wf(),
            0 <= i < self.entries().len(),
        ensures
            self@.dom().contains(self.entries()[i].key),
            self@[self.entries()[i].key] == self.entries()[i],
    {
        let s = self.entries();
        let k = s[i].key;
        assert(key_at(s, k));
        let j = index_of_key(s, k);
        assert(0 <= j < s.len() && s[j].key == k);
        if i != j {
            if i < j {
                assert(s[i].key != s[j].key);
            } else {
                assert(s[j].key != s[i].key);
            }
        }
    }

    pub(crate) proof fn lemma_mapped_is_entry(&self, k: u64)
        requires
            self.wf(),
            self@.dom().contains(k),
        ensures
            0 <= index_of_key(self.entries(), k) < self.entries().len(),
            self.entries()[index_of_key(self.entries(), k)] == self@[k],
            self@[k].key == k,
    {
        let s = self.entries();
        assert(key_at(s, k));
        let j = index_of_key(s, k);
        assert(0 <= j < s.len() && s[j].key == k);
    }

    pub(crate) fn new() -> (r: NodeStore<M>)
        ensures
            r.wf(),
            r@ == Map::<u64, NodeView<M>>::empty(),
            r.entries() == Seq::<NodeView<M>>::empty(),
    {
        let r = NodeStore { nodes: Vec::new() };
        proof {
            assert(r.entries() =~= Seq::<NodeView<M>>::empty());
            assert(r@ =~= Map::<u64, NodeView<M>>::empty());
        }
        r
    }

    /// The index of the record with the given key, if one is present.
    fn find_index(&self, k: u64) -> (r: Option<usize>)
        ensures
            match r {
                Some(i) => 0 <= i < self.entries().len() && self.entries()[i as int].key == k,
                None => !key_at(self.entries(), k),
            },
    {
        let ghost s = self.entries();
        let mut i: usize = 0;
        while i < self.nodes.len()
            invariant
                0 <= i <= self.nodes.len(),
                s == self.entries(),
                s.len() == self.nodes.len(),
                forall|j: int| 0 <= j < i ==> s[j].key != k,
            decreases self.nodes.len() - i,
        {
            if self.nodes[i].key() == k {
                return Some(i);
            }
            i += 1;
        }
        None
    }

    pub(crate) fn contains(&self, k: u64) -> (r: bool)
        requires
            self.wf(),
        ensures
            r == self@.dom().contains(k),
    {
        self.find_index(k).is_some()
    }

    pub(crate) fn get(&self, k: u64) -> (r: Option<&ReorgNode<M>>)
        requires
            self.wf(),
        ensures
            match r {
                Some(n) => self@.dom().contains(k) && n@ == self@[k],
                None => !self@.dom().contains(k),
            },
    {
        match self.find_index(k) {
            Some(i) => {
                proof {
                    self.lemma_entry_is_mapped(i as int);
                }
                Some(&self.nodes[i])
            },
            None => None,
        }
    }

    /// Inserts the record under its own key, replacing any record already
    /// there.
    pub(crate) fn put(&mut self, node: ReorgNode<M>)
        requires
            old(self).wf(),
        ensures
            final(self).wf(),
            final(self)@ == old(self)@.insert(node@.key, node@),
            final(self).entries().len() <= old(self).entries().len() + 1,
    {
        let ghost s0 = self.entries();
        let k = node.key();
        match self.find_index(k) {
            Some(i) => {
                proof {
                    self.lemma_entry_is_mapped(i as int);
                }
                let n = &mut self.nodes[i];
                *n = node;
                proof {
                    let s1 = self.entries();
                    assert(s1 =~= s0.update(i as int, node@));
                    assert(distinct_keys(s1));
                    assert forall|q: u64| #[trigger]
                        key_at(s1, q) <==> old(self)@.insert(node@.key, node@).dom().contains(
                        q,
                    ) by {
                        if key_at(s1, q) {
                            let a = choose|a: int| 0 <= a < s1.len() && s1[a].key == q;
                            if a == i {
                            } else {
                                assert(s0[a].key == q);
                                assert(key_at(s0, q));
                            }
                        }
                        if old(self)@.insert(node@.key, node@).dom().contains(q) {
                            if q == node@.key {
                                assert(s1[i as int].key == q);
                            } else {
                                let a = index_of_key(s0, q);
                                assert(s0[a].key == q);
                                assert(a != i);
                                assert(s1[a].key == q);
                            }
                        }
                    }
                    assert forall|q: u64| key_at(s1, q) implies #[trigger] as_key_map(s1)[q]
                        == old(self)@.insert(node@.key, node@)[q] by {
                        let a = index_of_key(s1, q);
                        assert(0 <= a < s1.len() && s1[a].key == q);
                        if a == i {
                            assert(q == node@.key);
                        } else {
                            assert(s1[a] == s0[a]);
                            assert(key_at(s0, q));
                            let b = index_of_key(s0, q);
                            assert(s0[b].key == q);
                            if b != a {
                                assert(false);
                            }
                            old(self).lemma_entry_is_mapped(b);
                            assert(q != node@.key) by {
                                assert(s0[i as int].key == node@.key);
                            }
                        }
                    }
                    assert(final(self)@ =~= old(self)@.insert(node@.key, node@));
                }
            },
            None => {
                self.nodes.push(node);
                proof {
                    let s1 = self.entries();
                    assert(s1 =~= s0.push(node@));
                    assert forall|a: int, b: int| 0 <= a < b < s1.len() implies s1[a].key
                        != s1[b].key by {
                        if b == s1.len() - 1 {
                            assert(s1[a] == s0[a]);
                            if s1[a].key == node@.key {
                                assert(key_at(s0, node@.key));
                            }
                        }
                    }
                    assert forall|q: u64| #[trigger]
                        key_at(s1, q) <==> old(self)@.insert(node@.key, node@).dom().contains(
                        q,
                    ) by {
                        if key_at(s1, q) {
                            let a = choose|a: int| 0 <= a < s1.len() && s1[a].key == q;
                            if a < s0.len() {
                                assert(s0[a].key == q);
                                assert(key_at(s0, q));
                            }
                        }
                        if old(self)@.insert(node@.key, node@).dom().contains(q) {
                            if q == node@.key {
                                assert(s1[s1.len() - 1].key == q);
                            } else {
                                let a = index_of_key(s0, q);
                                assert(s1[a].key == q);
                            }
                        }
                    }
                    assert forall|q: u64| key_at(s1, q) implies #[trigger] as_key_map(s1)[q]
                        == old(self)@.insert(node@.key, node@)[q] by {
                        let a = index_of_key(s1, q);
                        assert(0 <= a < s1.len() && s1[a].key == q);
                        if a == s1.len() - 1 {
                            assert(q == node@.key);
                        } else {
                            assert(s1[a] == s0[a]);
                            assert(key_at(s0, q));
                            let b = index_of_key(s0, q);
                            if b != a {
                                assert(false);
                            }
                            old(self).lemma_entry_is_mapped(b);
                            assert(q != node@.key) by {
                                assert(!key_at(s0, node@.key));
                            }
                        }
                    }
                    assert(final(self)@ =~= old(self)@.insert(node@.key, node@));
                }
            },
        }
    }

    /// Removes and returns the record with the given key; absent keys are a
    /// silent no-op.
    pub(crate) fn remove(&mut self, k: u64) -> (r: Option<ReorgNode<M>>)
        requires
            old(self).wf(),
        ensures
            final(self).wf(),
            match r {
                Some(n) => old(self)@.dom().contains(k) && n@ == old(self)@[k] && final(self)@
                    == old(self)@.remove(k) && n@.key == k && final(self).entries().len() + 1
                    == old(self).entries().len(),
                None => !old(self)@.dom().contains(k) && *final(self) == *old(self),
            },
    {
        let ghost s0 = self.entries();
        match self.find_index(k) {
            Some(i) => {
                proof {
                    self.lemma_entry_is_mapped(i as int);
                }
                let n = self.nodes.remove(i);
                proof {
                    let s1 = self.entries();
                    assert(s1 =~= s0.remove(i as int));
                    assert forall|a: int, b: int| 0 <= a < b < s1.len() implies s1[a].key
                        != s1[b].key by {
                        let a0 = if a < i { a } else { a + 1 };
                        let b0 = if b < i { b } else { b + 1 };
                        assert(s1[a] == s0[a0] && s1[b] == s0[b0]);
                    }
                    assert forall|q: u64| #[trigger]
                        key_at(s1, q) <==> old(self)@.remove(k).dom().contains(q) by {
                        if key_at(s1, q) {
                            let a = choose|a: int| 0 <= a < s1.len() && s1[a].key == q;
                            let a0 = if a < i { a } else { a + 1 };
                            assert(s0[a0].key == q);
                            assert(key_at(s0, q));
                            assert(q != k) by {
                                if a0 != i {
                                    assert(s0[a0].key != s0[i as int].key);
                                }
                            }
                        }
                        if old(self)@.remove(k).dom().contains(q) {
                            let a0 = index_of_key(s0, q);
                            assert(s0[a0].key == q);
                            assert(a0 != i);
                            let a = if a0 < i { a0 } else { a0 - 1 };
                            assert(s1[a].key == q);
                        }
                    }
                    assert forall|q: u64| key_at(s1, q) implies #[trigger] as_key_map(s1)[q]
                        == old(self)@.remove(k)[q] by {
                        let a = index_of_key(s1, q);
                        assert(0 <= a < s1.len() && s1[a].key == q);
                        let a0 = if a < i { a } else { a + 1 };
                        assert(s1[a] == s0[a0]);
                        assert(key_at(s0, q));
                        let b = index_of_key(s0, q);
                        if b != a0 {
                            assert(false);
                        }
                        old(self).lemma_entry_is_mapped(b);
                        assert(q != k) by {
                            if a0 != i {
                                assert(s0[a0].key != s0[i as int].key);
                            }
                        }
                    }
                    assert(final(self)@ =~= old(self)@.remove(k));
                }
                Some(n)
            },
            None => {
                proof {
                    if old(self)@.dom().contains(k) {
                        old(self).lemma_mapped_is_entry(k);
                    }
                }
                None
            },
        }
    }

    /// Appends a child key to the record stored under `parent_key`, reporting
    /// whether such a record was present.
    pub(crate) fn push_child(&mut self, parent_key: u64, child: u64) -> (r: bool)
        requires
            old(self).wf(),
        ensures
            final(self).wf(),
            r == old(self)@.dom().contains(parent_key),
            r ==> final(self)@ == old(self)@.insert(
                parent_key,
                (NodeView { children: old(self)@[parent_key].children.push(child), ..old(self)@[parent_key] }),
            ),
            !r ==> *final(self) == *old(self),
            final(self).entries().len() == old(self).entries().len(),
    {
        let ghost s0 = self.entries();
        match self.find_index(parent_key) {
            Some(i) => {
                proof {
                    self.lemma_entry_is_mapped(i as int);
                }
                let n = &mut self.nodes[i];
                n.push_child(child);
                proof {
                    let v = (NodeView {
                        children: old(self)@[parent_key].children.push(child),
                        ..old(self)@[parent_key]
                    });
                    let s1 = self.entries();
                    assert(s1 =~= s0.update(i as int, v));
                    assert(v.key == parent_key);
                    assert(distinct_keys(s1));
                    assert forall|q: u64| #[trigger]
                        key_at(s1, q) <==> old(self)@.insert(v.key, v).dom().contains(q) by {
                        if key_at(s1, q) {
                            let a = choose|a: int| 0 <= a < s1.len() && s1[a].key == q;
                            if a != i {
                                assert(s0[a].key == q);
                                assert(key_at(s0, q));
                            }
                        }
                        if old(self)@.insert(v.key, v).dom().contains(q) {
                            if q == v.key {
                                assert(s1[i as int].key == q);
                            } else {
                                let a = index_of_key(s0, q);
                                assert(a != i);
                                assert(s1[a].key == q);
                            }
                        }
                    }
                    assert forall|q: u64| key_at(s1, q) implies #[trigger] as_key_map(s1)[q]
                        == old(self)@.insert(v.key, v)[q] by {
                        let a = index_of_key(s1, q);
                        assert(0 <= a < s1.len() && s1[a].key == q);
                        if a == i {
                            assert(q == v.key);
                        } else {
                            assert(s1[a] == s0[a]);
                            assert(key_at(s0, q));
                            let b = index_of_key(s0, q);
                            if b != a {
                                assert(false);
                            }
                            old(self).lemma_entry_is_mapped(b);
                            assert(q != v.key) by {
                                assert(s0[i as int].key == v.key);
                            }
                        }
                    }
                    assert(final(self)@ =~= old(self)@.insert(v.key, v));
                }
                true
            },
            None => {
                proof {
                    if old(self)@.dom().contains(parent_key) {
                        old(self).lemma_mapped_is_entry(parent_key);
                    }
                }
                false
            },
        }
    }

    /// Strikes a child key from the record stored under `parent_key`,
    /// reporting whether such a record was present.
    pub(crate) fn remove_child_of(&mut self, parent_key: u64, child: u64) -> (r: bool)
        requires
            old(self).wf(),
        ensures
            final(self).wf(),
            r == old(self)@.dom().contains(parent_key),
            r ==> final(self)@ == old(self)@.insert(
                parent_key,
                (NodeView {
                    children: crate::node::without_key(old(self)@[parent_key].children, child),
                    ..old(self)@[parent_key]
                }),
            ),
            !r ==> *final(self) == *old(self),
            final(self).entries().len() == old(self).entries().len(),
    {
        let ghost s0 = self.entries();
        match self.find_index(parent_key) {
            Some(i) => {
                proof {
                    self.lemma_entry_is_mapped(i as int);
                }
                let n = &mut self.nodes[i];
                n.remove_child(child);
                proof {
                    let v = (NodeView {
                        children: crate::node::without_key(
                            old(self)@[parent_key].children,
                            child,
                        ),
                        ..old(self)@[parent_key]
                    });
                    let s1 = self.entries();
                    assert(s1 =~= s0.update(i as int, v));
                    assert(v.key == parent_key);
                    assert(distinct_keys(s1));
                    assert forall|q: u64| #[trigger]
                        key_at(s1, q) <==> old(self)@.insert(v.key, v).dom().contains(q) by {
                        if key_at(s1, q) {
                            let a = choose|a: int| 0 <= a < s1.len() && s1[a].key == q;
                            if a != i {
                                assert(s0[a].key == q);
                                assert(key_at(s0, q));
                            }
                        }
                        if old(self)@.insert(v.key, v).dom().contains(q) {
                            if q == v.key {
                                assert(s1[i as int].key == q);
                            } else {
                                let a = index_of_key(s0, q);
                                assert(a != i);
                                assert(s1[a].key == q);
                            }
                        }
                    }
                    assert forall|q: u64| key_at(s1, q) implies #[trigger] as_key_map(s1)[q]
                        == old(self)@.insert(v.key, v)[q] by {
                        let a = index_of_key(s1, q);
                        assert(0 <= a < s1.len() && s1[a].key == q);
                        if a == i {
                            assert(q == v.key);
                        } else {
                            assert(s1[a] == s0[a]);
                            assert(key_at(s0, q));
                            let b = index_of_key(s0, q);
                            if b != a {
                                assert(false);
                            }
                            old(self).lemma_entry_is_mapped(b);
                            assert(q != v.key) by {
                                assert(s0[i as int].key == v.key);
                            }
                        }
                    }
                    assert(final(self)@ =~= old(self)@.insert(v.key, v));
                }
                true
            },
            None => {
                proof {
                    if old(self)@.dom().contains(parent_key) {
                        old(self).lemma_mapped_is_entry(parent_key);
                    }
                }
                false
            },
        }
    }

    /// How many records the arena holds.
    pub(crate) fn len(&self) -> (r: usize)
        ensures
            r == self.entries().len(),
    {
        self.nodes.len()
    }

    /// A borrow of the record at a position, for walking the arena in order.
    pub(crate) fn at(&self, i: usize) -> (r: &ReorgNode<M>)
        requires
            i < self.entries().len(),
        ensures
            r@ == self.entries()[i as int],
    {
        &self.nodes[i]
    }

    /// The keys of all records, in insertion order.
    pub(crate) fn keys(&self) -> (r: Vec<u64>)
        ensures
            r@ == self.entries().map_values(|n: NodeView<M>| n.key),
    {
        let mut r: Vec<u64> = Vec::new();
        let mut i: usize = 0;
        while i < self.nodes.len()
            invariant
                0 <= i <= self.nodes.len(),
                self.nodes.len() == self.entries().len(),
                r@.len() == i,
                forall|j: int| 0 <= j < i ==> r@[j] == self.entries()[j].key,
            decreases self.nodes.len() - i,
        {
            r.push(self.nodes[i].key());
            i += 1;
        }
        proof {
            assert(r@ =~= self.entries().map_values(|n: NodeView<M>| n.key));
        }
        r
    }
}

} // verus!
