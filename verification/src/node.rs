use vstd::prelude::*;

verus! {

broadcast use vstd::seq_lib::lemma_seq_contains_after_push;

/// Mathematical image of a record: the same fields, with the child list as a
/// sequence of keys. Contracts all over the crate speak of this image.
#[verifier::ext_equal]
pub ghost struct NodeView<M> {
    pub key: u64,
    pub height: u64,
    pub value: u64,
    pub parent: u64,
    pub children: Seq<u64>,
    pub meta: M,
}

/// The sequence with every occurrence of the given key left out, the rest
/// kept in order.
pub open spec fn without_key(s: Seq<u64>, k: u64) -> Seq<u64>
    decreases s.len(),
{
    if s.len() == 0 {
        Seq::empty()
    } else if s.last() == k {
        without_key(s.drop_last(), k)
    } else {
        without_key(s.drop_last(), k).push(s.last())
    }
}

/// What `without_key` leaves: never the dropped key, and exactly the other
/// keys the sequence held.
pub proof fn lemma_without_key(s: Seq<u64>, k: u64)
    ensures
        !without_key(s, k).contains(k),
        forall|x: u64| x != k ==> (#[trigger] without_key(s, k).contains(x)) == s.contains(x),
    decreases s.len(),
{
    if s.len() > 0 {
        lemma_without_key(s.drop_last(), k);
        let t = s.drop_last();
        assert forall|x: u64| x != k implies (#[trigger] without_key(s, k).contains(x))
            == s.contains(x) by {
            if s.last() == k {
                if s.contains(x) {
                    let a = choose|a: int| 0 <= a < s.len() && s[a] == x;
                    assert(a < s.len() - 1) by {
                        assert(s[s.len() - 1] == k);
                    }
                    assert(t[a] == x);
                    assert(t.contains(x));
                }
                if t.contains(x) {
                    let a = choose|a: int| 0 <= a < t.len() && t[a] == x;
                    assert(s[a] == x);
                }
            } else {
                assert(without_key(s, k) == without_key(t, k).push(s.last()));
                if s.contains(x) {
                    let a = choose|a: int| 0 <= a < s.len() && s[a] == x;
                    if a < s.len() - 1 {
                        assert(t[a] == x);
                        assert(t.contains(x));
                    }
                }
                if t.contains(x) {
                    let a = choose|a: int| 0 <= a < t.len() && t[a] == x;
                    assert(s[a] == x);
                }
            }
        }
    }
}

/// One record of the tree. A record is immutable after construction except
/// for its child list, which only the insert protocol extends.
#[derive(Clone)]
pub struct ReorgNode<M> {
    /// Key of the record, its unique identity in the tree.
    key: u64,
    /// Position of the record in its chain, e.g. a block number.
    height: u64,
    /// Weight of the record, accumulated when branches compete by value.
    value: u64,
    /// Key of the record that this one names as its parent.
    parent: u64,
    /// Keys of the records that name this one as their parent.
    children: Vec<u64>,
    /// Opaque caller payload; never inspected by the tree.
    custom_meta: M,
}

impl<M> View for ReorgNode<M> {
    type V = NodeView<M>;

    closed spec fn view(&self) -> NodeView<M> {
        NodeView {
            key: self.key,
            height: self.height,
            value: self.value,
            parent: self.parent,
            children: self.children@,
            meta: self.custom_meta,
        }
    }
}

impl<M> ReorgNode<M> {
    /// Builds a record with an empty child list.
    pub fn new(key: u64, height: u64, value: u64, parent: u64, custom_meta: M) -> (r: ReorgNode<
        M,
    >)
        ensures
            r@ == (NodeView {
                key,
                height,
                value,
                parent,
                children: Seq::<u64>::empty(),
                meta: custom_meta,
            }),
    {
        ReorgNode { key, height, value, parent, children: Vec::new(), custom_meta }
    }

    pub fn key(&self) -> (r: u64)
        ensures
            r == self@.key,
    {
        self.key
    }

    pub fn height(&self) -> (r: u64)
        ensures
            r == self@.height,
    {
        self.height
    }

    pub fn value(&self) -> (r: u64)
        ensures
            r == self@.value,
    {
        self.value
    }

    pub fn parent(&self) -> (r: u64)
        ensures
            r == self@.parent,
    {
        self.parent
    }

    pub fn children(&self) -> (r: &Vec<u64>)
        ensures
            r@ == self@.children,
    {
        &self.children
    }

    pub fn meta(&self) -> (r: &M)
        ensures
            *r == self@.meta,
    {
        &self.custom_meta
    }

    /// Appends one key to the child list; used by the insert protocol alone.
    pub(crate) fn push_child(&mut self, child: u64)
        ensures
            final(self)@ == (NodeView { children: old(self)@.children.push(child), ..old(self)@ }),
    {
        self.children.push(child);
    }

    /// Strikes a key from the child list, keeping the rest in order; used
    /// when the subtree hanging from that key is deleted.
    pub(crate) fn remove_child(&mut self, child: u64)
        ensures
            final(self)@ == (NodeView {
                children: without_key(old(self)@.children, child),
                ..old(self)@
            }),
    {
        let ghost s = self.children@;
        let mut kept: Vec<u64> = Vec::new();
        let mut i: usize = 0;
        while i < self.children.len()
            invariant
                i <= self.children.len(),
                s == self.children@,
                kept@ == without_key(s.take(i as int), child),
            decreases self.children.len() - i,
        {
            let c = self.children[i];
            proof {
                assert(s.take(i + 1).drop_last() =~= s.take(i as int));
                assert(s.take(i + 1).last() == s[i as int]);
            }
            if c != child {
                kept.push(c);
            }
            i += 1;
        }
        proof {
            assert(s.take(s.len() as int) =~= s);
        }
        self.children = kept;
    }
}

impl<M: Default> Default for ReorgNode<M> {
    /// The placeholder record: every field zero, an empty child list, and a
    /// default payload.
    fn default() -> (r: Self)
        ensures
            r@.key == 0,
            r@.height == 0,
            r@.value == 0,
            r@.parent == 0,
            r@.children == Seq::<u64>::empty(),
            call_ensures(M::default, (), r@.meta),
    {
        ReorgNode::new(0, 0, 0, 0, M::default())
    }
}

} // verus!
