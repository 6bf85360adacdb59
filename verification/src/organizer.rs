use crate::height_index::HeightIndex;
use crate::node::NodeView;
use crate::node::ReorgNode;
use crate::store::NodeStore;
use vstd::prelude::*;

verus! {

broadcast use vstd::seq_lib::lemma_seq_contains_after_push;

/// A condition that the tree's own invariants rule out. Meeting one means
/// the caller's record stream or the tree itself has been corrupted; the
/// operation stops before mutating anything, and the caller should treat the
/// value as fatal rather than recover from it.
#[derive(Clone, Copy, Debug)]
pub enum InvariantViolation {
    /// No bucket of keys is logged at the current frontier height.
    MissingFrontierBucket,
    /// A child of the root, needed as the next root, is not in the store.
    MissingRootChild,
    /// The record a walk was asked to start from is not in the store.
    MissingHead,
}

/// Mathematical image of the whole tree, the terms in which every contract
/// speaks: the root record, the store and orphan buffer as maps from key to
/// record image, the height index as a map from height to key sequence, and
/// the three scalars of configuration and progress.
#[verifier::ext_equal]
pub ghost struct OrganizerView<M> {
    pub root: NodeView<M>,
    pub store: Map<u64, NodeView<M>>,
    pub index: Map<u64, Seq<u64>>,
    pub buffer: Map<u64, NodeView<M>>,
    pub frontier: u64,
    pub depth: u64,
    pub value_based: bool,
}

/// The images of a sequence of records.
pub open spec fn views_of<M>(s: Seq<ReorgNode<M>>) -> Seq<NodeView<M>> {
    s.map_values(|n: ReorgNode<M>| n@)
}

/// The oldest height still inside the retention window.
pub open spec fn allowed_oldest_of<M>(v: OrganizerView<M>) -> u64 {
    sat_sub(v.frontier, v.depth)
}

/// Every record of the map carries the key it is mapped under.
pub open spec fn keys_consistent<M>(m: Map<u64, NodeView<M>>) -> bool {
    forall|k: u64| m.dom().contains(k) ==> (#[trigger] m[k]).key == k
}

/// The structural health of the tree that every operation preserves: the
/// root is outside both the store and the orphan buffer, the two never share
/// a key, and each maps every key to a record carrying that key.
pub open spec fn healthy<M>(v: OrganizerView<M>) -> bool {
    &&& !v.store.dom().contains(v.root.key)
    &&& !v.buffer.dom().contains(v.root.key)
    &&& v.store.dom().disjoint(v.buffer.dom())
    &&& keys_consistent(v.store)
    &&& keys_consistent(v.buffer)
}

/// Parent links in the store climb down in height: whenever a stored
/// record's parent is itself stored, the parent sits strictly lower. The
/// walks of the branch selector and the traversal terminate because of it.
pub open spec fn heights_sane<M>(store: Map<u64, NodeView<M>>) -> bool {
    forall|k: u64|
        store.dom().contains(k) && store.dom().contains((#[trigger] store[k]).parent)
            ==> store[store[k].parent].height < store[k].height
}

/// `a - b`, held at zero.
pub open spec fn sat_sub(a: u64, b: u64) -> u64 {
    if a >= b {
        (a - b) as u64
    } else {
        0
    }
}

/// The greater of two heights.
pub open spec fn max_of(a: u64, b: u64) -> u64 {
    if a >= b {
        a
    } else {
        b
    }
}

/// Two record images that agree on everything but the child list.
pub open spec fn same_but_children<M>(a: NodeView<M>, b: NodeView<M>) -> bool {
    a.key == b.key && a.height == b.height && a.value == b.value && a.parent == b.parent && a.meta
        == b.meta
}

/// A candidate below the retention window: dropped silently.
pub open spec fn rejected_too_old<M>(v: OrganizerView<M>, n: NodeView<M>) -> bool {
    n.height <= allowed_oldest_of(v)
}

/// A candidate with no stored parent and nothing to add to the frontier:
/// dropped silently.
pub open spec fn rejected_dangling<M>(v: OrganizerView<M>, n: NodeView<M>) -> bool {
    !v.store.dom().contains(n.parent) && n.height <= v.frontier
}

/// Whether the root has aged to the edge of the retention window, so that
/// an insertion first advances it.
pub open spec fn advance_due<M>(v: OrganizerView<M>) -> bool {
    v.root.height == allowed_oldest_of(v)
}

/// Whether a due advance can be carried out: the promotion target of each
/// child-count case is present in the store. When this fails the tree has
/// been corrupted and the insertion stops with a fatal value.
pub open spec fn advance_admissible<M>(v: OrganizerView<M>, mode: bool) -> bool {
    if v.root.children.len() == 0 {
        true
    } else if v.root.children.len() == 1 {
        v.store.dom().contains(v.root.children[0])
    } else {
        v.index.dom().contains(v.frontier) && v.store.dom().contains(
            selected_branch(v.store, v.root.key, mode, v.index[v.frontier]),
        )
    }
}

/// Whether a record committed under a standing root survives the same
/// call's cleanup, which discards the root's stale parent and, when the
/// root sits above height zero, everything logged one height below it.
pub open spec fn commit_survives<M>(v: OrganizerView<M>, n: NodeView<M>) -> bool {
    &&& n.key != v.root.parent
    &&& (v.root.height == 0 || (n.height != sat_sub(v.root.height, 1) && !(
    v.index.dom().contains(sat_sub(v.root.height, 1)) && v.index[sat_sub(
        v.root.height,
        1,
    )].contains(n.key))))
}

/// Whether the same cleanup spares an already stored key: the key is not
/// the root's stale parent, and is not logged in the bucket one height
/// below a root that sits above height zero.
pub open spec fn cleanup_spares<M>(v: OrganizerView<M>, k: u64) -> bool {
    &&& k != v.root.parent
    &&& (v.root.height == 0 || !(v.index.dom().contains(sat_sub(v.root.height, 1))
        && v.index[sat_sub(v.root.height, 1)].contains(k)))
}

/// Whether any height bucket of the index logs the key.
pub open spec fn indexed_key(index: Map<u64, Seq<u64>>, k: u64) -> bool {
    exists|h: u64| index.dom().contains(h) && (#[trigger] index[h]).contains(k)
}

/// The root's key is never a key of the store: that is part of what
/// `healthy` says of a state, and every operation of the organizer both
/// demands and preserves health.
pub proof fn lemma_root_excluded<M>(v: OrganizerView<M>)
    requires
        healthy(v),
    ensures
        !v.store.dom().contains(v.root.key),
{
}

/// When the height index logs exactly the stored keys and the root's key,
/// the difference between the index and the store — what the diagnostic
/// reports — is the root's key alone.
pub proof fn lemma_diagnostics_of_healthy<M>(v: OrganizerView<M>)
    requires
        !v.store.dom().contains(v.root.key),
        forall|k: u64|
            #[trigger] indexed_key(v.index, k) <==> v.store.dom().contains(k) || k == v.root.key,
    ensures
        forall|k: u64|
            #[trigger] indexed_key(v.index, k) && !v.store.dom().contains(k) <==> k == v.root.key,
{
}

/// The frontier is the running maximum of accepted heights: an insertion
/// never lowers it, and moves it only to the height of a record it
/// accepted, so a frontier that moved equals the maximum of its old value
/// and that height.
pub proof fn lemma_frontier_is_max(pre_frontier: u64, accepted_height: u64, post_frontier: u64)
    requires
        post_frontier >= pre_frontier,
        post_frontier >= accepted_height,
        post_frontier == pre_frontier || post_frontier == accepted_height,
    ensures
        post_frontier == max_of(pre_frontier, accepted_height),
{
}

/// Heights climb along every parent link of the whole state: wherever a
/// stored or buffered record names another record (or the root) as its
/// parent, the parent sits strictly lower. This is the sanity the caller's
/// record stream owes the tree; the walks terminate because of it, and
/// every operation preserves it.
pub open spec fn lineage_sane<M>(v: OrganizerView<M>) -> bool {
    &&& heights_sane(v.store)
    &&& (forall|k: u64|
        v.store.dom().contains(k) && (#[trigger] v.store[k]).parent == v.root.key ==> v.root.height
            < v.store[k].height)
    &&& (forall|b: u64|
        v.buffer.dom().contains(b) && v.store.dom().contains((#[trigger] v.buffer[b]).parent)
            ==> v.store[v.buffer[b].parent].height < v.buffer[b].height)
    &&& (forall|b: u64|
        v.buffer.dom().contains(b) && (#[trigger] v.buffer[b]).parent == v.root.key
            ==> v.root.height < v.buffer[b].height)
    &&& (forall|b: u64, c: u64|
        #[trigger] v.buffer.dom().contains(b) && v.buffer.dom().contains(c)
            && (#[trigger] v.buffer[c]).parent == b ==> v.buffer[b].height < v.buffer[c].height)
    &&& (forall|k: u64|
        v.store.dom().contains(k) && v.buffer.dom().contains((#[trigger] v.store[k]).parent)
            ==> v.buffer[v.store[k].parent].height < v.store[k].height)
}

/// What a candidate record owes the standing state: it is not its own
/// parent, it sits strictly above whatever record or root it names as its
/// parent, and strictly below whatever names its key.
pub open spec fn candidate_sane<M>(v: OrganizerView<M>, n: NodeView<M>) -> bool {
    &&& n.parent != n.key
    &&& (v.store.dom().contains(n.parent) ==> v.store[n.parent].height < n.height)
    &&& (n.parent == v.root.key ==> v.root.height < n.height)
    &&& (v.buffer.dom().contains(n.parent) ==> v.buffer[n.parent].height < n.height)
    &&& (forall|k: u64|
        v.store.dom().contains(k) && (#[trigger] v.store[k]).parent == n.key ==> n.height
            < v.store[k].height)
    &&& (forall|b: u64|
        v.buffer.dom().contains(b) && (#[trigger] v.buffer[b]).parent == n.key ==> n.height
            < v.buffer[b].height)
}

/// A record whose key and core fields come from the old state or from the
/// candidate: the old stored record under its key, the old buffered record
/// under its key, or the candidate itself.
pub open spec fn descends<M>(v0: OrganizerView<M>, n: NodeView<M>, x: NodeView<M>) -> bool {
    ||| (v0.store.dom().contains(x.key) && same_but_children(x, v0.store[x.key]))
    ||| (x.key == n.key && same_but_children(x, n))
    ||| (v0.buffer.dom().contains(x.key) && same_but_children(x, v0.buffer[x.key]))
}

/// Any two descending records keep the height discipline: where one names
/// the other as its parent, the parent sits strictly lower.
proof fn lemma_core_pair<M>(v0: OrganizerView<M>, n: NodeView<M>, cv: NodeView<M>, pv: NodeView<M>)
    requires
        lineage_sane(v0),
        candidate_sane(v0, n),
        healthy(v0),
        !v0.store.dom().contains(n.key),
        !v0.buffer.dom().contains(n.key),
        descends(v0, n, cv),
        descends(v0, n, pv),
        cv.parent == pv.key,
    ensures
        pv.height < cv.height,
{
    if v0.store.dom().contains(cv.key) && same_but_children(cv, v0.store[cv.key]) {
        let c0 = v0.store[cv.key];
        if v0.store.dom().contains(pv.key) && same_but_children(pv, v0.store[pv.key]) {
            assert(v0.store[c0.parent].height < c0.height);
        } else if pv.key == n.key && same_but_children(pv, n) {
            assert(n.height < c0.height);
        } else {
            assert(v0.buffer[c0.parent].height < c0.height);
        }
    } else if cv.key == n.key && same_but_children(cv, n) {
        if v0.store.dom().contains(pv.key) && same_but_children(pv, v0.store[pv.key]) {
            assert(v0.store[n.parent].height < n.height);
        } else if pv.key == n.key && same_but_children(pv, n) {
            assert(false);
        } else {
            assert(v0.buffer[n.parent].height < n.height);
        }
    } else {
        let c0 = v0.buffer[cv.key];
        if v0.store.dom().contains(pv.key) && same_but_children(pv, v0.store[pv.key]) {
            assert(v0.store[c0.parent].height < c0.height);
        } else if pv.key == n.key && same_but_children(pv, n) {
            assert(n.height < c0.height);
        } else {
            assert(v0.buffer[c0.parent].height < c0.height);
        }
    }
}

/// A descending record that names the new root as its parent sits strictly
/// above it, whether the root stands from before or was promoted.
proof fn lemma_core_root<M>(v0: OrganizerView<M>, n: NodeView<M>, cv: NodeView<M>, rv: NodeView<M>)
    requires
        lineage_sane(v0),
        candidate_sane(v0, n),
        healthy(v0),
        !v0.store.dom().contains(n.key),
        !v0.buffer.dom().contains(n.key),
        n.key != v0.root.key,
        descends(v0, n, cv),
        same_but_children(rv, v0.root) || (exists|w: u64|
            v0.store.dom().contains(w) && same_but_children(rv, #[trigger] v0.store[w])),
        cv.parent == rv.key,
    ensures
        rv.height < cv.height,
{
    if same_but_children(rv, v0.root) {
        if v0.store.dom().contains(cv.key) && same_but_children(cv, v0.store[cv.key]) {
            assert(v0.root.height < v0.store[cv.key].height);
        } else if cv.key == n.key && same_but_children(cv, n) {
            assert(v0.root.height < n.height);
        } else {
            assert(v0.root.height < v0.buffer[cv.key].height);
        }
    } else {
        let w = choose|w: u64|
            v0.store.dom().contains(w) && same_but_children(rv, #[trigger] v0.store[w]);
        lemma_core_pair(v0, n, cv, v0.store[w]);
    }
}

/// The root after any advance: the old root still, or a promoted record
/// of the old store, its own fields kept either way.
pub open spec fn va_root_descends<M>(v0: OrganizerView<M>, va: OrganizerView<M>) -> bool {
    same_but_children(va.root, v0.root) || (exists|w: u64|
        v0.store.dom().contains(w) && same_but_children(va.root, #[trigger] v0.store[w]))
}

/// Lineage sanity carries over to any state whose records all descend from
/// the old state or from a sane candidate, fields kept.
proof fn lemma_lineage_transfer<M>(v0: OrganizerView<M>, n: NodeView<M>, post: OrganizerView<M>)
    requires
        lineage_sane(v0),
        candidate_sane(v0, n),
        healthy(v0),
        !v0.store.dom().contains(n.key),
        !v0.buffer.dom().contains(n.key),
        n.key != v0.root.key,
        forall|k: u64|
            #[trigger] post.store.dom().contains(k) ==> (v0.store.dom().contains(k)
                && same_but_children(post.store[k], v0.store[k])) || (k == n.key
                && same_but_children(post.store[k], n)) || (v0.buffer.dom().contains(k)
                && same_but_children(post.store[k], v0.buffer[k])),
        forall|k: u64|
            #[trigger] post.buffer.dom().contains(k) ==> (v0.buffer.dom().contains(k)
                && post.buffer[k] == v0.buffer[k]) || (k == n.key && post.buffer[k] == n),
        same_but_children(post.root, v0.root) || (exists|w: u64|
            v0.store.dom().contains(w) && same_but_children(post.root, #[trigger] v0.store[w])),
    ensures
        lineage_sane(post),
{
    assert forall|k: u64| #[trigger] post.store.dom().contains(k) implies descends(
        v0,
        n,
        post.store[k],
    ) && post.store[k].key == k by {}
    assert forall|k: u64| #[trigger] post.buffer.dom().contains(k) implies descends(
        v0,
        n,
        post.buffer[k],
    ) && post.buffer[k].key == k by {}
    assert(heights_sane(post.store)) by {
        assert forall|k: u64|
            post.store.dom().contains(k) && post.store.dom().contains(
                (#[trigger] post.store[k]).parent,
            ) implies post.store[post.store[k].parent].height < post.store[k].height by {
            lemma_core_pair(v0, n, post.store[k], post.store[post.store[k].parent]);
        }
    }
    assert forall|k: u64|
        post.store.dom().contains(k) && (#[trigger] post.store[k]).parent == post.root.key
        implies post.root.height < post.store[k].height by {
        lemma_core_root(v0, n, post.store[k], post.root);
    }
    assert forall|b: u64|
        post.buffer.dom().contains(b) && post.store.dom().contains(
            (#[trigger] post.buffer[b]).parent,
        ) implies post.store[post.buffer[b].parent].height < post.buffer[b].height by {
        lemma_core_pair(v0, n, post.buffer[b], post.store[post.buffer[b].parent]);
    }
    assert forall|b: u64|
        post.buffer.dom().contains(b) && (#[trigger] post.buffer[b]).parent == post.root.key
        implies post.root.height < post.buffer[b].height by {
        lemma_core_root(v0, n, post.buffer[b], post.root);
    }
    assert forall|b: u64, c: u64|
        #[trigger] post.buffer.dom().contains(b) && post.buffer.dom().contains(c) && (
        #[trigger] post.buffer[c]).parent == b implies post.buffer[b].height
        < post.buffer[c].height by {
        lemma_core_pair(v0, n, post.buffer[c], post.buffer[b]);
    }
    assert forall|k: u64|
        post.store.dom().contains(k) && post.buffer.dom().contains(
            (#[trigger] post.store[k]).parent,
        ) implies post.buffer[post.store[k].parent].height < post.store[k].height by {
        lemma_core_pair(v0, n, post.store[k], post.buffer[post.store[k].parent]);
    }
}

/// The scoring mode a call uses: the override where one is given, else the
/// organizer's configured default.
pub open spec fn chosen_mode(most_valuable: Option<bool>, default_mode: bool) -> bool {
    match most_valuable {
        Some(b) => b,
        None => default_mode,
    }
}

/// Bounds the parent walk from a key: one more than the stored height, or
/// zero once the walk has left the store.
pub open spec fn walk_measure<M>(store: Map<u64, NodeView<M>>, k: u64) -> int {
    if store.dom().contains(k) {
        store[k].height + 1
    } else {
        0
    }
}

/// The branch a walk from `k` belongs to, and its score: parent links are
/// followed until a record whose parent is `root_key` is met (that record's
/// key names the branch, and contributes nothing) or until the walk leaves
/// the store (the first absent key names the branch). Every other record
/// passed contributes its value in value mode, or one hop in length mode.
/// A parent link that does not climb down in height ends the walk early;
/// under `heights_sane` no such link exists.
pub open spec fn branch_of<M>(
    store: Map<u64, NodeView<M>>,
    root_key: u64,
    value_based: bool,
    k: u64,
) -> (u64, int)
    decreases walk_measure(store, k),
{
    if store.dom().contains(k) {
        let n = store[k];
        if n.parent == root_key {
            (k, 0)
        } else if store.dom().contains(n.parent) && store[n.parent].height >= n.height {
            (k, 0)
        } else {
            let rest = branch_of(store, root_key, value_based, n.parent);
            (
                rest.0,
                rest.1 + if value_based {
                    n.value as int
                } else {
                    1int
                },
            )
        }
    } else {
        (k, 0)
    }
}

/// Records a branch's score in a tally: replaces the entry already keyed by
/// the branch, in place, or appends a new one.
pub open spec fn upsert_score(s: Seq<(u64, int)>, k: u64, w: int) -> Seq<(u64, int)>
    decreases s.len(),
{
    if s.len() == 0 {
        seq![(k, w)]
    } else if s[0].0 == k {
        seq![(k, w)] + s.subrange(1, s.len() as int)
    } else {
        seq![s[0]] + upsert_score(s.subrange(1, s.len() as int), k, w)
    }
}

/// The tally after walking every head in order: each head's branch is
/// scored by `branch_of`, later heads of the same branch overwriting
/// earlier scores.
pub open spec fn tally_branches<M>(
    store: Map<u64, NodeView<M>>,
    root_key: u64,
    value_based: bool,
    heads: Seq<u64>,
) -> Seq<(u64, int)>
    decreases heads.len(),
{
    if heads.len() == 0 {
        Seq::empty()
    } else {
        let prev = tally_branches(store, root_key, value_based, heads.drop_last());
        let b = branch_of(store, root_key, value_based, heads.last());
        upsert_score(prev, b.0, b.1)
    }
}

/// The winning entry of a tally: scanned in order from the placeholder key
/// zero with score zero, an entry wins only with a strictly greater score,
/// so the earliest top-scoring branch is kept.
pub open spec fn best_score(s: Seq<(u64, int)>) -> (u64, int)
    decreases s.len(),
{
    if s.len() == 0 {
        (0u64, 0int)
    } else {
        let prev = best_score(s.drop_last());
        if s.last().1 > prev.1 {
            s.last()
        } else {
            prev
        }
    }
}

/// The key of the immediate child of the root that leads the winning
/// branch, given the tips at the frontier.
pub open spec fn selected_branch<M>(
    store: Map<u64, NodeView<M>>,
    root_key: u64,
    value_based: bool,
    heads: Seq<u64>,
) -> u64 {
    best_score(tally_branches(store, root_key, value_based, heads)).0
}

/// What the winner of a tally is: the placeholder entry when nothing scores
/// above zero, else an entry of the tally itself — and in either case no
/// tallied branch scores more.
pub proof fn lemma_best_score_sound(s: Seq<(u64, int)>)
    ensures
        best_score(s) == (0u64, 0int) || exists|i: int|
            0 <= i < s.len() && s[i] == best_score(s),
        forall|i: int| 0 <= i < s.len() ==> (#[trigger] s[i]).1 <= best_score(s).1,
    decreases s.len(),
{
    if s.len() > 0 {
        let t = s.drop_last();
        lemma_best_score_sound(t);
        let prev = best_score(t);
        if s.last().1 > prev.1 {
            assert(s[s.len() - 1] == best_score(s));
        } else {
            if prev != (0u64, 0int) {
                let i = choose|i: int| 0 <= i < t.len() && t[i] == prev;
                assert(s[i] == prev);
            }
        }
        assert forall|i: int| 0 <= i < s.len() implies (#[trigger] s[i]).1 <= best_score(s).1 by {
            if i < s.len() - 1 {
                assert(s[i] == t[i]);
            }
        }
    }
}

/// Branch selection soundness: the key the selector settles on is either
/// the placeholder zero — when no branch scores above zero — or the branch
/// of one of the given heads, and no head's branch was tallied with a
/// greater score than the winner's.
pub proof fn lemma_selected_branch_sound<M>(
    store: Map<u64, NodeView<M>>,
    root_key: u64,
    value_based: bool,
    heads: Seq<u64>,
)
    ensures
        selected_branch(store, root_key, value_based, heads) == 0 || exists|j: int|
            0 <= j < heads.len() && branch_of(store, root_key, value_based, heads[j]).0
                == selected_branch(store, root_key, value_based, heads),
        forall|i: int|
            0 <= i < tally_branches(store, root_key, value_based, heads).len() ==> (
            #[trigger] tally_branches(store, root_key, value_based, heads)[i]).1 <= best_score(
                tally_branches(store, root_key, value_based, heads),
            ).1,
{
    let tally = tally_branches(store, root_key, value_based, heads);
    lemma_best_score_sound(tally);
    if selected_branch(store, root_key, value_based, heads) != 0 {
        let i = choose|i: int| 0 <= i < tally.len() && tally[i] == best_score(tally);
        lemma_tally_entries_are_branches(store, root_key, value_based, heads);
        let j = choose|j: int|
            0 <= j < heads.len() && branch_of(store, root_key, value_based, heads[j]).0
                == tally[i].0;
        assert(branch_of(store, root_key, value_based, heads[j]).0 == selected_branch(
            store,
            root_key,
            value_based,
            heads,
        ));
    }
}

/// Every key tallied by `upsert_score` was in the tally before or is the
/// key just recorded.
proof fn lemma_upsert_keys(s: Seq<(u64, int)>, k: u64, w: int)
    ensures
        forall|i: int|
            0 <= i < upsert_score(s, k, w).len() ==> (#[trigger] upsert_score(s, k, w)[i]).0 == k
                || exists|j: int| 0 <= j < s.len() && s[j].0 == upsert_score(s, k, w)[i].0,
    decreases s.len(),
{
    let u = upsert_score(s, k, w);
    if s.len() == 0 {
    } else if s[0].0 == k {
        assert forall|i: int|
            0 <= i < u.len() implies (#[trigger] u[i]).0 == k || exists|j: int|
            0 <= j < s.len() && s[j].0 == u[i].0 by {
            if i > 0 {
                assert(u[i] == s.subrange(1, s.len() as int)[i - 1]);
                assert(s[i].0 == u[i].0);
            }
        }
    } else {
        let t = s.subrange(1, s.len() as int);
        lemma_upsert_keys(t, k, w);
        assert forall|i: int|
            0 <= i < u.len() implies (#[trigger] u[i]).0 == k || exists|j: int|
            0 <= j < s.len() && s[j].0 == u[i].0 by {
            if i == 0 {
                assert(u[0] == s[0]);
                assert(s[0].0 == u[0].0);
            } else {
                assert(u[i] == upsert_score(t, k, w)[i - 1]);
                if upsert_score(t, k, w)[i - 1].0 != k {
                    let j = choose|j: int|
                        0 <= j < t.len() && t[j].0 == upsert_score(t, k, w)[i - 1].0;
                    assert(s[j + 1].0 == u[i].0);
                }
            }
        }
    }
}

/// Every entry of the tally is the branch of one of the heads.
proof fn lemma_tally_entries_are_branches<M>(
    store: Map<u64, NodeView<M>>,
    root_key: u64,
    value_based: bool,
    heads: Seq<u64>,
)
    ensures
        forall|i: int|
            0 <= i < tally_branches(store, root_key, value_based, heads).len() ==> exists|j: int|
                0 <= j < heads.len() && branch_of(store, root_key, value_based, heads[j]).0 == (
                #[trigger] tally_branches(store, root_key, value_based, heads)[i]).0,
    decreases heads.len(),
{
    if heads.len() > 0 {
        let hs = heads.drop_last();
        let prev = tally_branches(store, root_key, value_based, hs);
        let b = branch_of(store, root_key, value_based, heads.last());
        lemma_tally_entries_are_branches(store, root_key, value_based, hs);
        lemma_upsert_keys(prev, b.0, b.1);
        let tally = tally_branches(store, root_key, value_based, heads);
        assert forall|i: int|
            0 <= i < tally.len() implies exists|j: int|
            0 <= j < heads.len() && branch_of(store, root_key, value_based, heads[j]).0 == (
        #[trigger] tally[i]).0 by {
            if tally[i].0 == b.0 {
                assert(heads[heads.len() - 1] == heads.last());
                assert(branch_of(store, root_key, value_based, heads[heads.len() - 1]).0
                    == tally[i].0);
            } else {
                let p = choose|p: int| 0 <= p < prev.len() && prev[p].0 == tally[i].0;
                let j = choose|j: int|
                    0 <= j < hs.len() && branch_of(store, root_key, value_based, hs[j]).0
                        == prev[p].0;
                assert(heads[j] == hs[j]);
                assert(branch_of(store, root_key, value_based, heads[j]).0 == tally[i].0);
            }
        }
    }
}

/// Where a traversal without an explicit head starts: the given head where
/// one is given; else the single tip, if the frontier bucket holds exactly
/// one key; else nowhere.
pub open spec fn resolved_head<M>(v: OrganizerView<M>, head: Option<u64>) -> Option<u64> {
    match head {
        Some(h) => Some(h),
        None => if v.index.dom().contains(v.frontier) && v.index[v.frontier].len() == 1 {
            Some(v.index[v.frontier][0])
        } else {
            None
        },
    }
}

/// A tally with the scores widened to mathematical integers.
spec fn scores_of(s: Seq<(u64, u128)>) -> Seq<(u64, int)> {
    s.map_values(|p: (u64, u128)| (p.0, p.1 as int))
}

proof fn lemma_upsert_is_update(s: Seq<(u64, int)>, k: u64, w: int, fi: int)
    requires
        0 <= fi < s.len(),
        s[fi].0 == k,
        forall|j: int| 0 <= j < fi ==> s[j].0 != k,
    ensures
        upsert_score(s, k, w) == s.update(fi, (k, w)),
    decreases s.len(),
{
    if fi == 0 {
        assert(upsert_score(s, k, w) =~= s.update(0, (k, w)));
    } else {
        let tail = s.subrange(1, s.len() as int);
        assert(tail[fi - 1].0 == k);
        assert forall|j: int| 0 <= j < fi - 1 implies tail[j].0 != k by {
            assert(tail[j] == s[j + 1]);
        }
        lemma_upsert_is_update(tail, k, w, fi - 1);
        assert(upsert_score(s, k, w) =~= s.update(fi, (k, w)));
    }
}

proof fn lemma_upsert_is_push(s: Seq<(u64, int)>, k: u64, w: int)
    requires
        forall|j: int| 0 <= j < s.len() ==> s[j].0 != k,
    ensures
        upsert_score(s, k, w) == s.push((k, w)),
    decreases s.len(),
{
    if s.len() == 0 {
        assert(upsert_score(s, k, w) =~= s.push((k, w)));
    } else {
        let tail = s.subrange(1, s.len() as int);
        assert forall|j: int| 0 <= j < tail.len() implies tail[j].0 != k by {
            assert(tail[j] == s[j + 1]);
        }
        lemma_upsert_is_push(tail, k, w);
        assert(upsert_score(s, k, w) =~= s.push((k, w)));
    }
}

/// A prefix of a sequence stays a prefix when the sequence grows.
proof fn lemma_prefix_push(a: Seq<u64>, b: Seq<u64>, x: u64)
    requires
        a.is_prefix_of(b),
    ensures
        a.is_prefix_of(b.push(x)),
{
    assert(b.push(x).subrange(0, a.len() as int) =~= b.subrange(0, a.len() as int));
}

/// Whether a list of keys holds the given key.
fn contains_key(v: &Vec<u64>, k: u64) -> (r: bool)
    ensures
        r == v@.contains(k),
{
    let mut i: usize = 0;
    while i < v.len()
        invariant
            i <= v.len(),
            forall|j: int| 0 <= j < i ==> v@[j] != k,
        decreases v.len() - i,
    {
        if v[i] == k {
            return true;
        }
        i += 1;
    }
    false
}

/// Copies a list of keys.
fn clone_keys(v: &Vec<u64>) -> (r: Vec<u64>)
    ensures
        r@ == v@,
{
    let mut r: Vec<u64> = Vec::new();
    let mut i: usize = 0;
    while i < v.len()
        invariant
            i <= v.len(),
            r@ == v@.take(i as int),
        decreases v.len() - i,
    {
        r.push(v[i]);
        proof {
            assert(r@ =~= v@.take(i + 1));
        }
        i += 1;
    }
    proof {
        assert(v@.take(v@.len() as int) =~= v@);
    }
    r
}

/// Appends every key of `src` to `dst`, in order.
fn extend_keys(dst: &mut Vec<u64>, src: &Vec<u64>)
    ensures
        final(dst)@ == old(dst)@ + src@,
{
    let mut i: usize = 0;
    while i < src.len()
        invariant
            i <= src.len(),
            dst@ == old(dst)@ + src@.take(i as int),
        decreases src.len() - i,
    {
        let k = src[i];
        dst.push(k);
        proof {
            assert(dst@ =~= old(dst)@ + src@.take(i + 1));
        }
        i += 1;
    }
    proof {
        assert(src@.take(src@.len() as int) =~= src@);
    }
}

/// The organizer: tracks competing branches of records within a bounded
/// window of heights, advancing its root and abandoning losing branches as
/// the frontier moves on.
pub struct Organizer<M> {
    /// The oldest retained record; held by value, never in the store.
    root: ReorgNode<M>,
    /// Every retained record except the root, keyed by its own key.
    nodes_by_key: NodeStore<M>,
    /// For each height, the keys logged at it; includes the root's height.
    nodes_by_height: HeightIndex,
    /// Records whose parent has not arrived yet, keyed by their own key.
    buffer: NodeStore<M>,
    /// Height of the most recently accepted record.
    height: u64,
    /// The retention window: how far below the frontier records are kept.
    allowed_depth: u64,
    /// Whether branches compete by accumulated value rather than by length.
    value_based: bool,
}

impl<M> View for Organizer<M> {
    type V = OrganizerView<M>;

    closed spec fn view(&self) -> OrganizerView<M> {
        OrganizerView {
            root: self.root@,
            store: self.nodes_by_key@,
            index: self.nodes_by_height@,
            buffer: self.buffer@,
            frontier: self.height,
            depth: self.allowed_depth,
            value_based: self.value_based,
        }
    }
}

impl<M> Organizer<M> {
    /// The representation invariant: the inner arenas are well formed and
    /// the view is healthy.
    pub closed spec fn wf(&self) -> bool {
        &&& self.nodes_by_key.wf()
        &&& self.nodes_by_height.wf()
        &&& self.buffer.wf()
        &&& healthy(self@)
    }

    /// The invariant implies the health of the view; stated once so callers
    /// can pass from one to the other.
    pub proof fn lemma_wf_healthy(&self)
        requires
            self.wf(),
        ensures
            healthy(self@),
    {
    }
}

impl<M: Default> Organizer<M> {
    /// An empty organizer around a placeholder root: nothing stored, nothing
    /// buffered, nothing logged by height, the frontier at zero.
    pub fn new(allowed_depth: u64, value_based: bool) -> (r: Organizer<M>)
        ensures
            r.wf(),
            lineage_sane(r@),
            r@.root.key == 0 && r@.root.height == 0 && r@.root.value == 0 && r@.root.parent == 0,
            r@.root.children == Seq::<u64>::empty(),
            call_ensures(M::default, (), r@.root.meta),
            r@.store == Map::<u64, NodeView<M>>::empty(),
            r@.index == Map::<u64, Seq<u64>>::empty(),
            r@.buffer == Map::<u64, NodeView<M>>::empty(),
            r@.frontier == 0,
            r@.depth == allowed_depth,
            r@.value_based == value_based,
    {
        Organizer {
            height: 0,
            root: ReorgNode::default(),
            nodes_by_key: NodeStore::new(),
            nodes_by_height: HeightIndex::new(),
            buffer: NodeStore::new(),
            allowed_depth,
            value_based,
        }
    }

    /// An organizer already rooted: the given record becomes the root, its
    /// height the frontier, and its key is logged at that height. The root
    /// is logged by height but never stored by key.
    pub fn new_with(root: ReorgNode<M>, allowed_depth: u64, value_based: bool) -> (r: Organizer<
        M,
    >)
        ensures
            r.wf(),
            lineage_sane(r@),
            r@.root == root@,
            r@.store == Map::<u64, NodeView<M>>::empty(),
            r@.index == Map::<u64, Seq<u64>>::empty().insert(root@.height, seq![root@.key]),
            r@.buffer == Map::<u64, NodeView<M>>::empty(),
            r@.frontier == root@.height,
            r@.depth == allowed_depth,
            r@.value_based == value_based,
    {
        let mut nodes_by_height = HeightIndex::new();
        nodes_by_height.set_single(root.height(), root.key());
        let height = root.height();
        Organizer {
            height,
            root,
            nodes_by_key: NodeStore::new(),
            nodes_by_height,
            buffer: NodeStore::new(),
            allowed_depth,
            value_based,
        }
    }
}

impl<M: Default> Default for Organizer<M> {
    /// The same empty state `new` builds, with a window of 255 heights and
    /// length-based scoring.
    fn default() -> (r: Self)
        ensures
            r.wf(),
            lineage_sane(r@),
            r@.root.key == 0 && r@.root.height == 0 && r@.root.value == 0 && r@.root.parent == 0,
            r@.root.children == Seq::<u64>::empty(),
            call_ensures(M::default, (), r@.root.meta),
            r@.store == Map::<u64, NodeView<M>>::empty(),
            r@.index == Map::<u64, Seq<u64>>::empty(),
            r@.buffer == Map::<u64, NodeView<M>>::empty(),
            r@.frontier == 0,
            r@.depth == 255,
            r@.value_based == false,
    {
        Organizer::new(255, false)
    }
}

impl<M> Organizer<M> {
    /// Sets a new root: its height becomes the frontier and its key alone is
    /// logged at that height. The store and buffer are kept as they are, so
    /// the new root's key must be fresh to them, and whatever already names
    /// that key as its parent must sit strictly above the new root.
    pub fn init(&mut self, first_root: ReorgNode<M>)
        requires
            old(self).wf(),
            lineage_sane(old(self)@),
            !old(self)@.store.dom().contains(first_root@.key),
            !old(self)@.buffer.dom().contains(first_root@.key),
            forall|k: u64|
                old(self)@.store.dom().contains(k) && (#[trigger] old(self)@.store[k]).parent
                    == first_root@.key ==> first_root@.height < old(self)@.store[k].height,
            forall|b: u64|
                old(self)@.buffer.dom().contains(b) && (#[trigger] old(self)@.buffer[b]).parent
                    == first_root@.key ==> first_root@.height < old(self)@.buffer[b].height,
        ensures
            final(self).wf(),
            lineage_sane(final(self)@),
            final(self)@.root == first_root@,
            final(self)@.frontier == first_root@.height,
            final(self)@.index == old(self)@.index.insert(
                first_root@.height,
                seq![first_root@.key],
            ),
            final(self)@.store == old(self)@.store,
            final(self)@.buffer == old(self)@.buffer,
            final(self)@.depth == old(self)@.depth,
            final(self)@.value_based == old(self)@.value_based,
    {
        self.height = first_root.height();
        self.nodes_by_height.set_single(first_root.height(), first_root.key());
        self.root = first_root;
    }

    /// The oldest height still retained: the frontier less the window, or
    /// zero where that would fall below zero.
    pub fn allowed_oldest(&self) -> (r: u64)
        ensures
            r == allowed_oldest_of(self@),
    {
        self.height.saturating_sub(self.allowed_depth)
    }

    /// Switches the organizer between length-based and value-based branch
    /// scoring.
    pub fn set_value_based(&mut self, switch: bool)
        requires
            old(self).wf(),
        ensures
            final(self).wf(),
            final(self)@ == (OrganizerView { value_based: switch, ..old(self)@ }),
            lineage_sane(old(self)@) ==> lineage_sane(final(self)@),
    {
        self.value_based = switch;
    }

    /// The keys logged at the current frontier height: the tips of the tree.
    /// An empty frontier bucket means the height index has been corrupted.
    pub fn highest_nodes(&self) -> (r: Result<&Vec<u64>, InvariantViolation>)
        requires
            self.wf(),
        ensures
            match r {
                Ok(v) => self@.index.dom().contains(self@.frontier) && v@ == self@.index[self@.frontier],
                Err(e) => !self@.index.dom().contains(self@.frontier) && e
                    is MissingFrontierBucket,
            },
    {
        match self.nodes_by_height.get(self.height) {
            Some(v) => Ok(v),
            None => Err(InvariantViolation::MissingFrontierBucket),
        }
    }

    /// A borrow of the stored record with the given key; the root is not
    /// stored and cannot be read here.
    pub fn node(&self, key: u64) -> (r: Option<&ReorgNode<M>>)
        requires
            self.wf(),
        ensures
            match r {
                Some(n) => self@.store.dom().contains(key) && n@ == self@.store[key],
                None => !self@.store.dom().contains(key),
            },
    {
        self.nodes_by_key.get(key)
    }

    /// Deletes the record with the given key and, transitively, every
    /// stored descendant reachable from it through child links, breadth
    /// first, and returns the full list of removed records. Deleting an
    /// absent key is a silent no-op. The one reference to the removed set
    /// from outside it — the deleted record's key in its parent's child
    /// list, or in the root's — is cleared; the height index keeps the
    /// removed keys until their heights are evicted in bulk.
    pub fn delete_children(&mut self, branch_root: u64) -> (removed: Vec<ReorgNode<M>>)
        requires
            old(self).wf(),
        ensures
            final(self).wf(),
            lineage_sane(old(self)@) ==> lineage_sane(final(self)@),
            final(self)@.index == old(self)@.index,
            final(self)@.buffer == old(self)@.buffer,
            final(self)@.frontier == old(self)@.frontier,
            final(self)@.depth == old(self)@.depth,
            final(self)@.value_based == old(self)@.value_based,
            // the root record changes only when it is the deleted record's
            // parent, and then only by losing that child key
            removed@.len() == 0 || old(self)@.store[branch_root].parent != old(self)@.root.key
                ==> final(self)@.root == old(self)@.root,
            removed@.len() > 0 && old(self)@.store[branch_root].parent == old(self)@.root.key
                ==> final(self)@.root == (NodeView {
                children: crate::node::without_key(old(self)@.root.children, branch_root),
                ..old(self)@.root
            }),
            // the removed records are pairwise distinct and were all stored,
            // each under its own key, with exactly the returned contents
            crate::store::distinct_keys(views_of(removed@)),
            forall|i: int|
                0 <= i < removed@.len() ==> old(self)@.store.dom().contains(
                    (#[trigger] views_of(removed@)[i]).key,
                ) && old(self)@.store[views_of(removed@)[i].key] == views_of(removed@)[i],
            // the store afterwards is the store before, less the removed keys
            forall|k: u64|
                final(self)@.store.dom().contains(k) <==> old(self)@.store.dom().contains(k)
                    && !crate::store::key_at(views_of(removed@), k),
            // every survivor keeps its fields; only the deleted record's
            // parent changes, losing that one child key
            forall|k: u64|
                final(self)@.store.dom().contains(k) ==> same_but_children(
                    (#[trigger] final(self)@.store[k]),
                    old(self)@.store[k],
                ),
            forall|k: u64|
                final(self)@.store.dom().contains(k) && !(removed@.len() > 0 && k == old(
                    self,
                )@.store[branch_root].parent) ==> (#[trigger] final(self)@.store[k]) == old(
                    self,
                )@.store[k],
            removed@.len() > 0 && old(self)@.store[branch_root].parent != old(self)@.root.key
                && final(self)@.store.dom().contains(old(self)@.store[branch_root].parent)
                ==> final(self)@.store[old(self)@.store[branch_root].parent] == (NodeView {
                children: crate::node::without_key(
                    old(self)@.store[old(self)@.store[branch_root].parent].children,
                    branch_root,
                ),
                ..old(self)@.store[old(self)@.store[branch_root].parent]
            }),
            // the named record leads the list when it was present at all
            removed@.len() > 0 <==> old(self)@.store.dom().contains(branch_root),
            removed@.len() > 0 ==> views_of(removed@)[0] == old(self)@.store[branch_root],
            !final(self)@.store.dom().contains(branch_root),
            // completeness: a stored child of a removed record is removed
            forall|i: int, c: u64|
                0 <= i < removed@.len() && #[trigger] views_of(removed@)[i].children.contains(c)
                    && old(self)@.store.dom().contains(c) ==> crate::store::key_at(
                    views_of(removed@),
                    c,
                ),
            // minimality: all but the first removed record are children of
            // an earlier removed record
            forall|i: int|
                1 <= i < removed@.len() ==> exists|j: int|
                    0 <= j < i && views_of(removed@)[j].children.contains(
                        (#[trigger] views_of(removed@)[i]).key,
                    ),
    {
        let ghost store0 = old(self)@.store;
        let mut ret: Vec<ReorgNode<M>> = Vec::new();
        let first = self.nodes_by_key.remove(branch_root);
        match first {
            None => {
                proof {
                    assert(views_of(ret@) =~= Seq::<NodeView<M>>::empty());
                }
                ret
            },
            Some(removed) => {
                let parent_key = removed.parent();
                let mut removeable: Vec<u64> = clone_keys(removed.children());
                ret.push(removed);
                proof {
                    let rs = views_of(ret@);
                    assert(rs =~= seq![removed@]);
                    assert(removed@.key == branch_root);
                    assert forall|k: u64| crate::store::key_at(rs, k) implies k == branch_root by {
                        let a = choose|a: int| 0 <= a < rs.len() && rs[a].key == k;
                        assert(rs[a] == removed@);
                    }
                    assert(crate::store::key_at(rs, branch_root)) by {
                        assert(rs[0].key == branch_root);
                    }
                    assert forall|c: u64| removeable@.contains(c) implies exists|j: int|
                        0 <= j < rs.len() && views_of(ret@)[j].children.contains(c) by {
                        assert(rs[0].children.contains(c));
                    }
                }
                while removeable.len() > 0
                    invariant
                        self.nodes_by_key.wf(),
                        self.nodes_by_height == old(self).nodes_by_height,
                        self.buffer == old(self).buffer,
                        self.root == old(self).root,
                        self.height == old(self).height,
                        self.allowed_depth == old(self).allowed_depth,
                        self.value_based == old(self).value_based,
                        healthy(old(self)@),
                        self.buffer.wf(),
                        self.nodes_by_height.wf(),
                        crate::store::distinct_keys(views_of(ret@)),
                        forall|i: int|
                            0 <= i < ret@.len() ==> store0.dom().contains(
                                (#[trigger] views_of(ret@)[i]).key,
                            ) && store0[views_of(ret@)[i].key] == views_of(ret@)[i],
                        forall|k: u64|
                            self@.store.dom().contains(k) <==> store0.dom().contains(k)
                                && !crate::store::key_at(views_of(ret@), k),
                        forall|k: u64|
                            self@.store.dom().contains(k) ==> self@.store[k] == store0[k],
                        ret@.len() > 0,
                        views_of(ret@)[0] == store0[branch_root],
                        forall|i: int, c: u64|
                            0 <= i < ret@.len() && #[trigger] views_of(ret@)[i].children.contains(c)
                                && store0.dom().contains(c) ==> crate::store::key_at(
                                views_of(ret@),
                                c,
                            ) || removeable@.contains(c),
                        forall|c: u64|
                            removeable@.contains(c) ==> exists|j: int|
                                0 <= j < ret@.len() && views_of(ret@)[j].children.contains(c),
                        forall|i: int|
                            1 <= i < ret@.len() ==> exists|j: int|
                                0 <= j < i && views_of(ret@)[j].children.contains(
                                    (#[trigger] views_of(ret@)[i]).key,
                                ),
                    decreases self.nodes_by_key.entries().len(), removeable@.len(),
                {
                    let ghost n0 = self.nodes_by_key.entries().len();
                    let ghost removeable0 = removeable@;
                    let mut remove_next: Vec<u64> = Vec::new();
                    let mut idx: usize = 0;
                    proof {
                        assert(removeable0.subrange(0, removeable0.len() as int) =~= removeable0);
                    }
                    while idx < removeable.len()
                        invariant
                            idx <= removeable.len(),
                            removeable@ == removeable0,
                            self.nodes_by_key.wf(),
                            self.nodes_by_height == old(self).nodes_by_height,
                            self.buffer == old(self).buffer,
                            self.root == old(self).root,
                            self.height == old(self).height,
                            self.allowed_depth == old(self).allowed_depth,
                            self.value_based == old(self).value_based,
                            healthy(old(self)@),
                            self.buffer.wf(),
                            self.nodes_by_height.wf(),
                            crate::store::distinct_keys(views_of(ret@)),
                            forall|i: int|
                                0 <= i < ret@.len() ==> store0.dom().contains(
                                    (#[trigger] views_of(ret@)[i]).key,
                                ) && store0[views_of(ret@)[i].key] == views_of(ret@)[i],
                            forall|k: u64|
                                self@.store.dom().contains(k) <==> store0.dom().contains(k)
                                    && !crate::store::key_at(views_of(ret@), k),
                            forall|k: u64|
                                self@.store.dom().contains(k) ==> self@.store[k] == store0[k],
                            ret@.len() > 0,
                            views_of(ret@)[0] == store0[branch_root],
                            forall|i: int, c: u64|
                                0 <= i < ret@.len() && #[trigger] views_of(ret@)[i].children.contains(c)
                                    && store0.dom().contains(c) ==> crate::store::key_at(
                                    views_of(ret@),
                                    c,
                                ) || remove_next@.contains(c) || removeable0.subrange(
                                    idx as int,
                                    removeable0.len() as int,
                                ).contains(c),
                            forall|c: u64|
                                removeable0.contains(c) ==> exists|j: int|
                                    0 <= j < ret@.len() && views_of(ret@)[j].children.contains(c),
                            forall|c: u64|
                                remove_next@.contains(c) ==> exists|j: int|
                                    0 <= j < ret@.len() && views_of(ret@)[j].children.contains(c),
                            forall|i: int|
                                1 <= i < ret@.len() ==> exists|j: int|
                                    0 <= j < i && views_of(ret@)[j].children.contains(
                                        (#[trigger] views_of(ret@)[i]).key,
                                    ),
                            self.nodes_by_key.entries().len() <= n0,
                            remove_next@.len() > 0 ==> self.nodes_by_key.entries().len() < n0,
                        decreases removeable@.len() - idx,
                    {
                        let key = removeable[idx];
                        let ghost rs_before = views_of(ret@);
                        let ghost rn_before = remove_next@;
                        proof {
                            assert(removeable0.subrange(
                                idx as int,
                                removeable0.len() as int,
                            )[0] == removeable0[idx as int]);
                        }
                        match self.nodes_by_key.remove(key) {
                            Some(removed_last) => {
                                extend_keys(&mut remove_next, removed_last.children());
                                ret.push(removed_last);
                                proof {
                                    let rs = views_of(ret@);
                                    assert(rs =~= rs_before.push(removed_last@));
                                    assert(removed_last@.key == key);
                                    assert(!crate::store::key_at(rs_before, key));
                                    assert forall|a: int, b: int|
                                        0 <= a < b < rs.len() implies rs[a].key != rs[b].key by {
                                        if b < rs.len() - 1 {
                                            assert(rs[a] == rs_before[a] && rs[b] == rs_before[b]);
                                        } else {
                                            assert(rs[a] == rs_before[a]);
                                            if rs[a].key == key {
                                                assert(crate::store::key_at(rs_before, key));
                                            }
                                        }
                                    }
                                    assert forall|c: u64|
                                        crate::store::key_at(rs, c) implies (crate::store::key_at(
                                        rs_before,
                                        c,
                                    ) || c == key) by {
                                        let a = choose|a: int| 0 <= a < rs.len() && rs[a].key == c;
                                        if a < rs.len() - 1 {
                                            assert(rs_before[a].key == c);
                                        }
                                    }
                                    assert forall|c: u64|
                                        crate::store::key_at(rs_before, c) implies crate::store::key_at(
                                        rs,
                                        c,
                                    ) by {
                                        let a = choose|a: int|
                                            0 <= a < rs_before.len() && rs_before[a].key == c;
                                        assert(rs[a].key == c);
                                    }
                                    assert(crate::store::key_at(rs, key)) by {
                                        assert(rs[rs.len() - 1].key == key);
                                    }
                                    assert forall|i: int, c: u64|
                                        0 <= i < rs.len() && #[trigger] rs[i].children.contains(c)
                                            && store0.dom().contains(c) implies crate::store::key_at(
                                            rs,
                                            c,
                                        ) || remove_next@.contains(c) || removeable0.subrange(
                                            idx + 1,
                                            removeable0.len() as int,
                                        ).contains(c) by {
                                        if i < rs.len() - 1 {
                                            assert(rs[i] == rs_before[i]);
                                            assert(crate::store::key_at(rs_before, c)
                                                || rn_before.contains(c) || removeable0.subrange(
                                                idx as int,
                                                removeable0.len() as int,
                                            ).contains(c));
                                            if crate::store::key_at(rs_before, c) {
                                            } else if rn_before.contains(c) {
                                                let a = choose|a: int|
                                                    0 <= a < rn_before.len() && rn_before[a] == c;
                                                assert(remove_next@[a] == c);
                                                assert(remove_next@.contains(c));
                                            } else {
                                                let a = choose|a: int|
                                                    0 <= a < removeable0.len() - idx
                                                        && removeable0.subrange(
                                                        idx as int,
                                                        removeable0.len() as int,
                                                    )[a] == c;
                                                if a == 0 {
                                                    assert(c == key);
                                                } else {
                                                    assert(removeable0.subrange(
                                                        idx + 1,
                                                        removeable0.len() as int,
                                                    )[a - 1] == c);
                                                }
                                            }
                                        } else {
                                            assert(rs[i] == removed_last@);
                                            let ch = removed_last@.children;
                                            let a = choose|a: int| 0 <= a < ch.len() && ch[a] == c;
                                            assert(remove_next@[rn_before.len() + a] == c);
                                            assert(remove_next@.contains(c));
                                        }
                                    }
                                    assert forall|c: u64| removeable0.contains(c) implies exists|j: int|
                                        0 <= j < rs.len() && views_of(ret@)[j].children.contains(
                                        c,
                                    ) by {
                                        let j = choose|j: int|
                                            0 <= j < rs_before.len() && rs_before[j].children.contains(c);
                                        assert(rs[j].children.contains(c));
                                    }
                                    assert forall|c: u64| remove_next@.contains(c) implies exists|j: int|
                                        0 <= j < rs.len() && views_of(ret@)[j].children.contains(
                                        c,
                                    ) by {
                                        let a = choose|a: int|
                                            0 <= a < remove_next@.len() && remove_next@[a] == c;
                                        if a < rn_before.len() {
                                            assert(rn_before[a] == c);
                                            assert(rn_before.contains(c));
                                            let j = choose|j: int|
                                                0 <= j < rs_before.len()
                                                    && rs_before[j].children.contains(c);
                                            assert(rs[j].children.contains(c));
                                        } else {
                                            assert(removed_last@.children[a - rn_before.len()] == c);
                                            assert(rs[rs.len() - 1].children.contains(c));
                                        }
                                    }
                                    assert forall|i: int| 1 <= i < rs.len() implies exists|j: int|
                                        0 <= j < i && views_of(ret@)[j].children.contains(
                                        (#[trigger] rs[i]).key,
                                    ) by {
                                        if i < rs.len() - 1 {
                                            assert(rs_before[i].key == rs[i].key);
                                            let j = choose|j: int|
                                                0 <= j < i && rs_before[j].children.contains(
                                                rs_before[i].key);
                                            assert(rs[j].children.contains(rs[i].key));
                                        } else {
                                            assert(removeable0.contains(key)) by {
                                                assert(removeable0[idx as int] == key);
                                            }
                                            let j = choose|j: int|
                                                0 <= j < rs_before.len()
                                                    && rs_before[j].children.contains(key);
                                            assert(rs[j].children.contains(rs[i].key));
                                        }
                                    }
                                    assert forall|k2: u64| self@.store.dom().contains(k2)
                                        <==> (store0.dom().contains(k2) && !crate::store::key_at(
                                        rs,
                                        k2,
                                    )) by {
                                        if self@.store.dom().contains(k2) {
                                            assert(k2 != key);
                                            assert(!crate::store::key_at(rs_before, k2));
                                            if crate::store::key_at(rs, k2) {
                                                assert(crate::store::key_at(rs_before, k2) || k2 == key);
                                            }
                                        }
                                        if store0.dom().contains(k2) && !crate::store::key_at(rs, k2) {
                                            assert(!crate::store::key_at(rs_before, k2));
                                            assert(k2 != key);
                                        }
                                    }
                                }
                            },
                            None => {
                                proof {
                                    let rs = views_of(ret@);
                                    assert forall|i: int, c: u64|
                                        0 <= i < rs.len() && #[trigger] rs[i].children.contains(c)
                                            && store0.dom().contains(c) implies crate::store::key_at(
                                            rs,
                                            c,
                                        ) || remove_next@.contains(c) || removeable0.subrange(
                                            idx + 1,
                                            removeable0.len() as int,
                                        ).contains(c) by {
                                        if removeable0.subrange(
                                            idx as int,
                                            removeable0.len() as int,
                                        ).contains(c) {
                                            let a = choose|a: int|
                                                0 <= a < removeable0.len() - idx
                                                    && removeable0.subrange(
                                                    idx as int,
                                                    removeable0.len() as int,
                                                )[a] == c;
                                            if a == 0 {
                                                // this key is not stored now, so
                                                // where the store held it at the
                                                // start, it is already among the
                                                // removed
                                                assert(c == key);
                                            } else {
                                                assert(removeable0.subrange(
                                                    idx + 1,
                                                    removeable0.len() as int,
                                                )[a - 1] == c);
                                            }
                                        }
                                    }
                                }
                            },
                        }
                        idx += 1;
                    }
                    removeable = remove_next;
                    proof {
                        assert(removeable0.subrange(
                            removeable0.len() as int,
                            removeable0.len() as int,
                        ) =~= Seq::<u64>::empty());
                    }
                }
                // clear the one reference from outside the removed set:
                // the deleted record's key in its parent's child list
                let ghost sd = self@.store;
                let ghost rootd = self@.root;
                if parent_key == self.root.key() {
                    self.root.remove_child(branch_root);
                } else {
                    let _had = self.nodes_by_key.remove_child_of(parent_key, branch_root);
                }
                proof {
                    let rs = views_of(ret@);
                    assert(crate::store::key_at(rs, branch_root)) by {
                        assert(rs[0].key == branch_root) by {
                            assert(store0.dom().contains(rs[0].key));
                            assert(keys_consistent(store0));
                        }
                    }
                    assert(rs[0].parent == parent_key);
                    assert forall|k: u64|
                        self@.store.dom().contains(k) <==> (store0.dom().contains(k)
                            && !crate::store::key_at(rs, k)) by {
                        assert(sd.dom().contains(k) == self@.store.dom().contains(k));
                    }
                    assert forall|k: u64|
                        self@.store.dom().contains(k) && k != parent_key implies (
                    #[trigger] self@.store[k]) == store0[k] by {
                        assert(self@.store[k] == sd[k]);
                    }
                    assert(!self@.store.dom().contains(branch_root));
                    assert(healthy(self@)) by {
                        assert forall|k: u64| self@.store.dom().contains(k) implies
                            !self@.buffer.dom().contains(k) by {
                            assert(store0.dom().contains(k));
                        }
                        assert(self@.store.dom().disjoint(self@.buffer.dom()));
                        assert(self@.root.key == rootd.key);
                        assert(!self@.store.dom().contains(self@.root.key));
                        assert forall|k: u64| self@.store.dom().contains(k) implies
                            (#[trigger] self@.store[k]).key == k by {
                            assert(same_but_children(self@.store[k], store0[k]));
                        }
                    }
                }
                ret
            },
        }
    }


    /// The key of the immediate child of the current root that leads the
    /// branch with the strictly greatest score among the branches hanging
    /// from the tips, walking each tip back toward the root; earlier tips
    /// win ties, and the placeholder key zero is returned when no branch
    /// scores above zero. A missing frontier bucket is fatal: no tip can be
    /// enumerated, which the tree's own bookkeeping should make impossible.
    pub fn find_longest_branch(&self, most_valuable: Option<bool>) -> (r: Result<
        u64,
        InvariantViolation,
    >)
        requires
            self.wf(),
            heights_sane(self@.store),
        ensures
            match r {
                Ok(k) => self@.index.dom().contains(self@.frontier) && k == selected_branch(
                    self@.store,
                    self@.root.key,
                    chosen_mode(most_valuable, self@.value_based),
                    self@.index[self@.frontier],
                ),
                Err(e) => !self@.index.dom().contains(self@.frontier) && e
                    is MissingFrontierBucket,
            },
    {
        let by_value = match most_valuable {
            Some(b) => b,
            None => self.value_based,
        };
        let heads = match self.nodes_by_height.get(self.height) {
            Some(v) => v,
            None => {
                return Err(InvariantViolation::MissingFrontierBucket);
            },
        };
        let ghost store = self@.store;
        let ghost rk = self@.root.key;
        let mut table: Vec<(u64, u128)> = Vec::new();
        let mut hi: usize = 0;
        proof {
            assert(heads@.take(0) =~= Seq::<u64>::empty());
            assert(scores_of(table@) =~= Seq::<(u64, int)>::empty());
        }
        while hi < heads.len()
            invariant
                hi <= heads@.len(),
                self.wf(),
                heights_sane(store),
                store == self@.store,
                rk == self@.root.key,
                self@.index.dom().contains(self@.frontier),
                heads@ == self@.index[self@.frontier],
                scores_of(table@) == tally_branches(store, rk, by_value, heads@.take(hi as int)),
            decreases heads@.len() - hi,
        {
            let head = heads[hi];
            let mut cursor: u64 = head;
            let mut worth: u128 = 0;
            let ghost target = branch_of(store, rk, by_value, head);
            let ghost hstart = walk_measure(store, head);
            loop
                invariant
                    self.wf(),
                    heights_sane(store),
                    store == self@.store,
                    rk == self@.root.key,
                    target.0 == branch_of(store, rk, by_value, cursor).0,
                    target.1 == worth + branch_of(store, rk, by_value, cursor).1,
                    walk_measure(store, cursor) <= hstart,
                    hstart <= 0x1_0000_0000_0000_0000,
                    worth <= (hstart - walk_measure(store, cursor))
                        * 0xffff_ffff_ffff_ffffu128,
                ensures
                    target == (cursor, worth as int),
                decreases walk_measure(store, cursor),
            {
                match self.nodes_by_key.get(cursor) {
                    Some(node) => {
                        if node.parent() != self.root.key() {
                            let gain: u64 = if by_value {
                                node.value()
                            } else {
                                1
                            };
                            proof {
                                let m = walk_measure(store, cursor);
                                let m2 = walk_measure(store, node@.parent);
                                assert(m2 < m);
                                assert(worth + gain <= (hstart - m2)
                                    * 0xffff_ffff_ffff_ffffu128 && (hstart - m2)
                                    * 0xffff_ffff_ffff_ffffu128 <= 0x1_0000_0000_0000_0000int
                                    * 0xffff_ffff_ffff_ffffint) by (nonlinear_arith)
                                    requires
                                        worth <= (hstart - m) * 0xffff_ffff_ffff_ffffu128,
                                        gain <= 0xffff_ffff_ffff_ffffu64,
                                        0 <= m2 < m <= hstart <= 0x1_0000_0000_0000_0000,
                                ;
                            }
                            worth = worth + (gain as u128);
                            cursor = node.parent();
                        } else {
                            break;
                        }
                    },
                    None => {
                        break;
                    },
                }
            }
            // record the branch, overwriting the entry already keyed by it
            let ghost t0 = scores_of(table@);
            let mut fi: usize = 0;
            while fi < table.len() && table[fi].0 != cursor
                invariant
                    fi <= table@.len(),
                    t0 == scores_of(table@),
                    forall|j: int| 0 <= j < fi ==> t0[j].0 != cursor,
                decreases table@.len() - fi,
            {
                fi += 1;
            }
            if fi < table.len() {
                let e = &mut table[fi];
                *e = (cursor, worth);
                proof {
                    assert(scores_of(table@) =~= t0.update(fi as int, (cursor, worth as int)));
                    lemma_upsert_is_update(t0, cursor, worth as int, fi as int);
                }
            } else {
                table.push((cursor, worth));
                proof {
                    assert(scores_of(table@) =~= t0.push((cursor, worth as int)));
                    lemma_upsert_is_push(t0, cursor, worth as int);
                }
            }
            proof {
                assert(heads@.take(hi + 1).drop_last() =~= heads@.take(hi as int));
                assert(heads@.take(hi + 1).last() == heads@[hi as int]);
            }
            hi += 1;
        }
        proof {
            assert(heads@.take(heads@.len() as int) =~= heads@);
        }
        let mut best_key: u64 = 0;
        let mut best_worth: u128 = 0;
        let mut bi: usize = 0;
        proof {
            assert(scores_of(table@).take(0) =~= Seq::<(u64, int)>::empty());
        }
        while bi < table.len()
            invariant
                bi <= table@.len(),
                (best_key, best_worth as int) == best_score(scores_of(table@).take(bi as int)),
            decreases table@.len() - bi,
        {
            let e = table[bi];
            proof {
                assert(scores_of(table@).take(bi + 1).drop_last() =~= scores_of(table@).take(
                    bi as int,
                ));
                assert(scores_of(table@).take(bi + 1).last() == (e.0, e.1 as int));
            }
            if e.1 > best_worth {
                best_key = e.0;
                best_worth = e.1;
            }
            bi += 1;
        }
        proof {
            assert(scores_of(table@).take(table@.len() as int) =~= scores_of(table@));
        }
        Ok(best_key)
    }

    /// Walks from a record toward the root, handing each visited record to
    /// the visitor: the head record first, then parent after parent,
    /// stopping after visiting the record whose key is `root` (when one is
    /// given) or when the walk leaves the retained history. Without an
    /// explicit head the walk starts from the single tip, and does nothing
    /// when the tips are not exactly one. An explicit or resolved head that
    /// is not stored is fatal.
    pub fn apply_callback<T, F: Fn(&ReorgNode<M>) -> T>(
        &self,
        head: Option<u64>,
        root: Option<u64>,
        callback: F,
    ) -> (r: Result<(), InvariantViolation>)
        requires
            self.wf(),
            heights_sane(self@.store),
            forall|n: &ReorgNode<M>|
                self@.store.dom().contains(n@.key) && self@.store[n@.key] == n@
                    ==> call_requires(callback, (n,)),
        ensures
            match r {
                Ok(_) => match resolved_head(self@, head) {
                    Some(h) => self@.store.dom().contains(h),
                    None => true,
                },
                Err(e) => {
                    &&& match resolved_head(self@, head) {
                        Some(h) => !self@.store.dom().contains(h),
                        None => false,
                    }
                    &&& e is MissingHead
                },
            },
    {
        let h = match head {
            Some(h) => h,
            None => {
                match self.nodes_by_height.get(self.height) {
                    Some(hs) => {
                        if hs.len() != 1 {
                            return Ok(());
                        }
                        hs[0]
                    },
                    None => {
                        return Ok(());
                    },
                }
            },
        };
        let head_node = match self.nodes_by_key.get(h) {
            Some(n) => n,
            None => {
                return Err(InvariantViolation::MissingHead);
            },
        };
        callback(head_node);
        let mut cursor: u64 = head_node.parent();
        loop
            invariant
                self.wf(),
                heights_sane(self@.store),
                forall|n: &ReorgNode<M>|
                    self@.store.dom().contains(n@.key) && self@.store[n@.key] == n@
                        ==> call_requires(callback, (n,)),
            decreases walk_measure(self@.store, cursor),
        {
            match self.nodes_by_key.get(cursor) {
                Some(node) => {
                    proof {
                        assert(node@.key == cursor);
                    }
                    callback(node);
                    match root {
                        Some(root_key) => {
                            if node.key() == root_key {
                                break;
                            }
                        },
                        None => {},
                    }
                    cursor = node.parent();
                },
                None => {
                    break;
                },
            }
        }
        Ok(())
    }

    /// The insert protocol. A candidate below the retention window, or with
    /// no stored parent and nothing to add to the frontier, is dropped
    /// silently. Otherwise, a root that has aged to the window's edge is
    /// first advanced: with one child, that child is promoted in place; with
    /// several, the branch selector picks the winner to promote and every
    /// losing branch is deleted. The candidate is then attached to its
    /// stored parent (or to the root itself) and committed — logged by
    /// height, stored by key, the frontier raised to its height where that
    /// is higher — or, with no parent in sight, moved to the orphan buffer.
    /// A commit is followed by cleanup (the root's stale parent and, for a
    /// root above height zero, everything logged one height below it are
    /// dropped) and one draining pass over the orphan buffer. A promotion
    /// target missing from the store, or a missing frontier bucket during
    /// selection, is fatal and leaves the tree untouched.
    ///
    /// The caller brings a record with a fresh key, an empty child list,
    /// and heights that respect the standing lineage, into a tree whose
    /// parent links all climb down in height; the call hands the same
    /// discipline back, so insertions chain.
    pub fn insert(&mut self, node: ReorgNode<M>, most_valuable: Option<bool>) -> (r: Result<
        (),
        InvariantViolation,
    >)
        requires
            old(self).wf(),
            lineage_sane(old(self)@),
            candidate_sane(old(self)@, node@),
            !old(self)@.store.dom().contains(node@.key),
            !old(self)@.buffer.dom().contains(node@.key),
            node@.key != old(self)@.root.key,
            node@.children == Seq::<u64>::empty(),
        ensures
            final(self).wf(),
            lineage_sane(final(self)@),
            final(self)@.depth == old(self)@.depth,
            final(self)@.value_based == old(self)@.value_based,
            // the frontier never falls, and rises only to the candidate's
            // or an adopted orphan's height
            final(self)@.frontier >= old(self)@.frontier,
            final(self)@.frontier == old(self)@.frontier || final(self)@.frontier == node@.height
                || (exists|bk: u64|
                old(self)@.buffer.dom().contains(bk) && final(self)@.store.dom().contains(bk) && (
                #[trigger] old(self)@.buffer[bk]).height == final(self)@.frontier),
            // silent filtering leaves the tree untouched
            rejected_too_old(old(self)@, node@) ==> r is Ok && *final(self) == *old(self),
            !rejected_too_old(old(self)@, node@) && rejected_dangling(old(self)@, node@) ==> r
                is Ok && *final(self) == *old(self),
            // fatal outcomes leave the tree untouched, and come exactly when
            // an advance was due but its promotion target was missing
            r is Err ==> *final(self) == *old(self),
            r is Err <==> !rejected_too_old(old(self)@, node@) && !rejected_dangling(
                old(self)@,
                node@,
            ) && advance_due(old(self)@) && !advance_admissible(
                old(self)@,
                chosen_mode(most_valuable, old(self)@.value_based),
            ),
            // an accepted record either commits, raising the frontier to at
            // least its height, or waits in the orphan buffer
            !rejected_too_old(old(self)@, node@) && !rejected_dangling(old(self)@, node@) && r
                is Ok ==> final(self)@.frontier >= node@.height
                || final(self)@.buffer.dom().contains(node@.key),
            // nothing enters the store but the candidate and drained
            // orphans, every stored record descending from the old state or
            // the candidate with its fields kept
            forall|k: u64|
                final(self)@.store.dom().contains(k) ==> (old(self)@.store.dom().contains(k)
                    && same_but_children((#[trigger] final(self)@.store[k]), old(self)@.store[k]))
                    || (k == node@.key && same_but_children(final(self)@.store[k], node@)) || (old(
                    self,
                )@.buffer.dom().contains(k) && same_but_children(
                    final(self)@.store[k],
                    old(self)@.buffer[k],
                )),
            final(self)@.buffer.dom().subset_of(old(self)@.buffer.dom().insert(node@.key)),
            forall|k: u64|
                final(self)@.buffer.dom().contains(k) ==> (#[trigger] final(self)@.buffer[k])
                    == old(self)@.buffer[k] || (k == node@.key && final(self)@.buffer[k] == node@),
            // the root record keeps its fields: the old root's, or, after an
            // advance, a promoted store record's
            same_but_children(final(self)@.root, old(self)@.root) || (exists|w: u64|
                old(self)@.store.dom().contains(w) && same_but_children(
                    final(self)@.root,
                    (#[trigger] old(self)@.store[w]),
                )),
            !advance_due(old(self)@) ==> same_but_children(final(self)@.root, old(self)@.root),
            // the retention bound: what the draining pass adds sits above
            // the window's lower edge
            forall|k: u64|
                final(self)@.store.dom().contains(k) && !old(self)@.store.dom().contains(k) && k
                    != node@.key ==> (#[trigger] final(self)@.store[k]).height > sat_sub(
                    max_of(old(self)@.frontier, node@.height),
                    old(self)@.depth,
                ),
            // an accepted record with no stored parent that is not the
            // root's own child is buffered, whatever the advance did; the
            // frontier and the height index hold still
            !rejected_too_old(old(self)@, node@) && !rejected_dangling(old(self)@, node@) && r
                is Ok && !old(self)@.store.dom().contains(node@.parent) && node@.parent != old(
                self,
            )@.root.key ==> final(self)@.buffer == old(self)@.buffer.insert(node@.key, node@)
                && final(self)@.frontier == old(self)@.frontier && final(self)@.index == old(
                self,
            )@.index,
            // a child of a root that a due advance replaces is buffered too
            !rejected_too_old(old(self)@, node@) && !rejected_dangling(old(self)@, node@) && r
                is Ok && advance_due(old(self)@) && old(self)@.root.children.len() > 0
                && node@.parent == old(self)@.root.key ==> final(self)@.buffer == old(
                self,
            )@.buffer.insert(node@.key, node@) && final(self)@.frontier == old(self)@.frontier
                && final(self)@.index == old(self)@.index,
            // with no advance due, an orphan is buffered and nothing else
            // moves
            !rejected_too_old(old(self)@, node@) && !rejected_dangling(old(self)@, node@)
                && !advance_due(old(self)@) && !old(self)@.store.dom().contains(node@.parent)
                && node@.parent != old(self)@.root.key ==> r is Ok && final(self)@
                == (OrganizerView {
                    buffer: old(self)@.buffer.insert(node@.key, node@),
                    ..old(self)@
                }),
            // what a due advance settles: one child is promoted in place
            !rejected_too_old(old(self)@, node@) && !rejected_dangling(old(self)@, node@) && r
                is Ok && advance_due(old(self)@) && old(self)@.root.children.len() == 1 ==> final(self)@.root.key == old(self)@.root.children[0] && same_but_children(
                final(self)@.root,
                old(self)@.store[old(self)@.root.children[0]],
            ) && !final(self)@.store.dom().contains(old(self)@.root.children[0]),
            // with several children the selected winner is promoted and
            // every other stored child of the old root leaves the store
            !rejected_too_old(old(self)@, node@) && !rejected_dangling(old(self)@, node@) && r
                is Ok && advance_due(old(self)@) && old(self)@.root.children.len() >= 2 ==> final(self)@.root.key == selected_branch(
                old(self)@.store,
                old(self)@.root.key,
                chosen_mode(most_valuable, old(self)@.value_based),
                old(self)@.index[old(self)@.frontier],
            ) && same_but_children(final(self)@.root, old(self)@.store[final(self)@.root.key])
                && !final(self)@.store.dom().contains(final(self)@.root.key) && (forall|i: int|
                0 <= i < old(self)@.root.children.len() && (#[trigger] old(
                    self,
                )@.root.children[i]) != final(self)@.root.key && old(self)@.store.dom().contains(
                    old(self)@.root.children[i],
                ) ==> !final(self)@.store.dom().contains(old(self)@.root.children[i])),
            // with no child the root stands
            !rejected_too_old(old(self)@, node@) && !rejected_dangling(old(self)@, node@) && r
                is Ok && advance_due(old(self)@) && old(self)@.root.children.len() == 0
                ==> same_but_children(final(self)@.root, old(self)@.root),
            // with no advance due, a record with a visible parent commits
            !rejected_too_old(old(self)@, node@) && !rejected_dangling(old(self)@, node@)
                && !advance_due(old(self)@) && (old(self)@.store.dom().contains(node@.parent)
                || node@.parent == old(self)@.root.key) ==> r is Ok && final(self)@.frontier
                >= max_of(old(self)@.frontier, node@.height),
            // and, unless the same call's cleanup covers its height, it is
            // then stored and logged
            !rejected_too_old(old(self)@, node@) && !rejected_dangling(old(self)@, node@)
                && !advance_due(old(self)@) && (old(self)@.store.dom().contains(node@.parent)
                || node@.parent == old(self)@.root.key) && commit_survives(old(self)@, node@)
                ==> final(self)@.store.dom().contains(node@.key) && same_but_children(
                final(self)@.store[node@.key],
                node@,
            ) && final(self)@.index.dom().contains(node@.height)
                && final(self)@.index[node@.height].contains(node@.key),
            // attachment: the committed record's key is appended to its
            // stored parent's child list, which later only grows
            !rejected_too_old(old(self)@, node@) && !rejected_dangling(old(self)@, node@)
                && !advance_due(old(self)@) && old(self)@.store.dom().contains(node@.parent)
                && cleanup_spares(old(self)@, node@.parent) ==> final(self)@.store.dom().contains(
                node@.parent,
            ) && old(self)@.store[node@.parent].children.push(node@.key).is_prefix_of(
                final(self)@.store[node@.parent].children,
            ),
            // or, as the root's own child, to the root's list, exactly
            !rejected_too_old(old(self)@, node@) && !rejected_dangling(old(self)@, node@)
                && !advance_due(old(self)@) && node@.parent == old(self)@.root.key ==> final(self)@.root.children == old(self)@.root.children.push(node@.key),
            // cleanup: after a commit under a standing root, the root's
            // stale parent is not stored, nor is anything the bucket one
            // height below the root listed, short of re-adoption
            !rejected_too_old(old(self)@, node@) && !rejected_dangling(old(self)@, node@)
                && !advance_due(old(self)@) && (old(self)@.store.dom().contains(node@.parent)
                || node@.parent == old(self)@.root.key) && !old(self)@.buffer.dom().contains(
                old(self)@.root.parent,
            ) ==> !final(self)@.store.dom().contains(old(self)@.root.parent),
            !rejected_too_old(old(self)@, node@) && !rejected_dangling(old(self)@, node@)
                && !advance_due(old(self)@) && (old(self)@.store.dom().contains(node@.parent)
                || node@.parent == old(self)@.root.key) && old(self)@.root.height > 0 && old(
                self,
            )@.index.dom().contains(sat_sub(old(self)@.root.height, 1)) ==> (forall|k: u64|
                old(self)@.index[sat_sub(old(self)@.root.height, 1)].contains(k) && !old(
                    self,
                )@.buffer.dom().contains(k) ==> !(#[trigger] final(self)@.store.dom().contains(
                    k,
                ))),
            !rejected_too_old(old(self)@, node@) && !rejected_dangling(old(self)@, node@)
                && !advance_due(old(self)@) && (old(self)@.store.dom().contains(node@.parent)
                || node@.parent == old(self)@.root.key) && old(self)@.root.height > 0 && old(
                self,
            )@.buffer.dom() == Set::<u64>::empty() ==> !final(self)@.index.dom().contains(
                sat_sub(old(self)@.root.height, 1),
            ),
            // after any commit, buffered records at or below the window's
            // new lower edge are discarded for good
            !rejected_too_old(old(self)@, node@) && !rejected_dangling(old(self)@, node@) && r
                is Ok && !final(self)@.buffer.dom().contains(node@.key) ==> (forall|bk: u64|
                old(self)@.buffer.dom().contains(bk) && (#[trigger] old(self)@.buffer[bk]).height
                    <= sat_sub(max_of(old(self)@.frontier, node@.height), old(self)@.depth)
                    ==> !final(self)@.buffer.dom().contains(bk)
                    && !final(self)@.store.dom().contains(bk)),
            // orphans whose parent is the committed record, or a stored
            // record the cleanup spares, are adopted by the draining pass
            !rejected_too_old(old(self)@, node@) && !rejected_dangling(old(self)@, node@)
                && !advance_due(old(self)@) && (old(self)@.store.dom().contains(node@.parent)
                || node@.parent == old(self)@.root.key) && commit_survives(old(self)@, node@)
                ==> (forall|bk: u64|
                old(self)@.buffer.dom().contains(bk) && ((#[trigger] old(self)@.buffer[bk]).parent
                    == node@.key || (old(self)@.store.dom().contains(old(self)@.buffer[bk].parent)
                    && cleanup_spares(old(self)@, old(self)@.buffer[bk].parent))) && old(
                    self,
                )@.buffer[bk].height > sat_sub(
                    max_of(old(self)@.frontier, node@.height),
                    old(self)@.depth,
                ) ==> final(self)@.store.dom().contains(bk) && !final(self)@.buffer.dom().contains(
                    bk,
                )),
    {
        let ghost v0 = old(self)@;
        let ghost nv = node@;
        let ghost mode = chosen_mode(most_valuable, v0.value_based);
        proof {
            assert(heights_sane(v0.store));
        }
        let ao = self.allowed_oldest();
        if node.height() <= ao {
            return Ok(());
        }
        let parent_present0 = self.nodes_by_key.contains(node.parent());
        if !parent_present0 && node.height() <= self.height {
            return Ok(());
        }
        // advance the root once it has aged to the window's edge
        if self.root.height() == ao {
            let child_count = self.root.children().len();
            if child_count == 1 {
                let ck = self.root.children()[0];
                let promoted = self.nodes_by_key.remove(ck);
                match promoted {
                    Some(new_root) => {
                        self.root = new_root;
                        proof {
                            assert(healthy(self@)) by {
                                assert(self@.root.key == ck);
                                assert(!self@.store.dom().contains(ck));
                                assert(!v0.buffer.dom().contains(ck));
                            }
                        }
                    },
                    None => {
                        return Err(InvariantViolation::MissingRootChild);
                    },
                }
            } else if child_count > 1 {
                let by_value = match most_valuable {
                    Some(b) => b,
                    None => self.value_based,
                };
                proof {
                    assert(by_value == mode);
                }
                let winner = match self.find_longest_branch(Some(by_value)) {
                    Ok(k) => k,
                    Err(e) => {
                        return Err(e);
                    },
                };
                let dead = clone_keys(self.root.children());
                let promoted = self.nodes_by_key.remove(winner);
                match promoted {
                    Some(new_root) => {
                        self.root = new_root;
                        let ghost root1 = self@.root;
                        proof {
                            assert(healthy(self@)) by {
                                assert(self@.root.key == winner);
                                assert(!self@.store.dom().contains(winner));
                                assert(!v0.buffer.dom().contains(winner));
                            }
                        }
                        // reclaim every branch that lost the competition
                        let mut di: usize = 0;
                        while di < dead.len()
                            invariant
                                di <= dead@.len(),
                                self.wf(),
                                dead@ == v0.root.children,
                                root1.key == winner,
                                v0.store.dom().contains(winner),
                                same_but_children(self@.root, root1),
                                self@.buffer == v0.buffer,
                                self@.index == v0.index,
                                self@.frontier == v0.frontier,
                                self@.depth == v0.depth,
                                self@.value_based == v0.value_based,
                                !self@.store.dom().contains(winner),
                                forall|k: u64|
                                    #[trigger] self@.store.dom().contains(k)
                                        ==> v0.store.dom().contains(k) && same_but_children(
                                        self@.store[k],
                                        v0.store[k],
                                    ),
                                forall|j: int|
                                    0 <= j < di && (#[trigger] dead@[j]) != winner
                                        ==> !self@.store.dom().contains(dead@[j]),
                            decreases dead@.len() - di,
                        {
                            let dk = dead[di];
                            let ghost rb = self@.root;
                            if dk != self.root.key() {
                                let ghost before = self@.store;
                                proof {
                                    assert(forall|k: u64|
                                        #[trigger] before.dom().contains(k)
                                            ==> v0.store.dom().contains(k) && same_but_children(
                                            before[k],
                                            v0.store[k],
                                        ));
                                }
                                let _pruned = self.delete_children(dk);
                                proof {
                                    assert(same_but_children(self@.root, rb));
                                    assert forall|k: u64|
                                        #[trigger] self@.store.dom().contains(k)
                                        implies v0.store.dom().contains(k) && same_but_children(
                                        self@.store[k],
                                        v0.store[k],
                                    ) by {
                                        // name the removed set, so the
                                        // deletion contract applies at k
                                        let w = crate::store::key_at(views_of(_pruned@), k);
                                        assert(before.dom().contains(k));
                                        assert(same_but_children(self@.store[k], before[k]));
                                    }
                                    assert(!self@.store.dom().contains(dk));
                                    assert forall|j: int|
                                        0 <= j < di + 1 && (#[trigger] dead@[j]) != winner
                                        implies !self@.store.dom().contains(dead@[j]) by {
                                        if j < di {
                                            if self@.store.dom().contains(dead@[j]) {
                                                let w2 = crate::store::key_at(
                                                    views_of(_pruned@),
                                                    dead@[j],
                                                );
                                                assert(before.dom().contains(dead@[j]));
                                            }
                                        }
                                    }
                                }
                            } else {
                                proof {
                                    assert(dk == winner);
                                }
                            }
                            di += 1;
                        }
                        proof {
                            assert(self@.root.key == selected_branch(
                                v0.store,
                                v0.root.key,
                                mode,
                                v0.index[v0.frontier],
                            ));
                        }
                    },
                    None => {
                        return Err(InvariantViolation::MissingRootChild);
                    },
                }
            }
        }
        let ghost va = self@;
        proof {
            assert(!advance_due(v0) ==> va == v0);
            if advance_due(v0) {
                if v0.root.children.len() == 0 {
                    assert(va == v0);
                } else if v0.root.children.len() == 1 {
                    assert(va.root.key == v0.root.children[0]);
                    assert(same_but_children(va.root, v0.store[v0.root.children[0]]));
                    assert(!va.store.dom().contains(va.root.key));
                    assert(v0.store.dom().contains(va.root.key));
                    assert forall|k: u64|
                        #[trigger] va.store.dom().contains(k) implies v0.store.dom().contains(k)
                        && same_but_children(va.store[k], v0.store[k]) by {}
                } else {
                    assert(va.root.key == selected_branch(
                        v0.store,
                        v0.root.key,
                        mode,
                        v0.index[v0.frontier],
                    ));
                    assert(same_but_children(va.root, v0.store[va.root.key]));
                    assert(!va.store.dom().contains(va.root.key));
                    assert(v0.store.dom().contains(va.root.key));
                    assert(forall|j: int|
                        0 <= j < v0.root.children.len() && (#[trigger] v0.root.children[j])
                            != va.root.key ==> !va.store.dom().contains(v0.root.children[j]));
                    assert(forall|k: u64|
                        #[trigger] va.store.dom().contains(k) ==> v0.store.dom().contains(k)
                            && same_but_children(va.store[k], v0.store[k]));
                }
            }
            assert(va_root_descends(v0, va)) by {
                if advance_due(v0) && v0.root.children.len() > 0 {
                    assert(v0.store.dom().contains(va.root.key) && same_but_children(
                        va.root,
                        v0.store[va.root.key],
                    ));
                } else {
                    assert(same_but_children(va.root, v0.root));
                }
            }
            assert(!va.store.dom().contains(nv.key));
            assert(!va.buffer.dom().contains(nv.key));
            assert(nv.key != va.root.key);
        }
        // attach to a stored parent, to the root itself, or buffer the
        // orphan
        let nkey = node.key();
        let nheight = node.height();
        let nparent = node.parent();
        let attached = self.nodes_by_key.push_child(nparent, nkey);
        if !attached {
            if nparent == self.root.key() {
                self.root.push_child(nkey);
            } else {
                self.buffer.put(node);
                proof {
                    assert(healthy(self@));
                    assert(self@.buffer =~= v0.buffer.insert(nv.key, nv));
                    assert(self@.root == va.root && self@.store == va.store && self@.index
                        == va.index && self@.frontier == va.frontier);
                    assert(same_but_children(self@.root, va.root));
                    assert forall|k: u64|
                        self@.buffer.dom().contains(k) implies (#[trigger] self@.buffer[k])
                        == v0.buffer[k] || (k == nv.key && self@.buffer[k] == nv) by {}
                    assert forall|k: u64|
                        #[trigger] self@.store.dom().contains(k) implies v0.store.dom().contains(
                        k,
                    ) && same_but_children(self@.store[k], v0.store[k]) by {
                        assert(va.store.dom().contains(k));
                    }
                    assert(same_but_children(self@.root, va.root));
                    lemma_lineage_transfer(v0, nv, self@);
                    if !advance_due(v0) {
                        assert(self@ =~= (OrganizerView {
                            buffer: v0.buffer.insert(nv.key, nv),
                            ..v0
                        }));
                    }
                }
                return Ok(());
            }
        }
        // commit: log the key by height, store the record, raise the
        // frontier to its height where that is higher
        self.nodes_by_height.push_key(nheight, nkey);
        if nheight > self.height {
            self.height = nheight;
        }
        self.nodes_by_key.put(node);
        proof {
            assert(healthy(self@)) by {
                assert(nv.key != self@.root.key);
            }
            assert(self@.frontier == max_of(v0.frontier, nv.height));
        }
        // cleanup: the root's stale parent, then, under a root above
        // height zero, everything logged one height below it
        let ghost vc = self@;
        let rp = self.root.parent();
        let ghost sc = self@.store;
        let _stale = self.nodes_by_key.remove(rp);
        proof {
            assert(healthy(self@)) by {
                assert forall|k: u64|
                    self@.store.dom().contains(k) implies !self@.buffer.dom().contains(k) && (
                #[trigger] self@.store[k]).key == k by {
                    assert(sc.dom().contains(k) && self@.store[k] == sc[k]);
                }
                assert(self@.store.dom().disjoint(self@.buffer.dom()));
            }
        }
        let rheight = self.root.height();
        if rheight > 0 {
            self.evict_height(rheight - 1);
        }
        // drain the orphan buffer
        let ghost vd = self@;
        self.drain_buffer();
        proof {
            let ghost rh1 = sat_sub(va.root.height, 1);
            assert(same_but_children(vd.root, va.root));
            assert(vd.buffer == v0.buffer);
            assert(vd.frontier == max_of(v0.frontier, nv.height));
            assert(allowed_oldest_of(vd) == sat_sub(max_of(v0.frontier, nv.height), v0.depth));
            assert forall|k: u64|
                #[trigger] self@.store.dom().contains(k) implies vd.store.dom().contains(k) || (
                vd.buffer.dom().contains(k) && self@.store[k] == vd.buffer[k]) by {
                let w2 = self@.store[k];
            }
            assert forall|k: u64|
                self@.store.dom().contains(k) implies (v0.store.dom().contains(k)
                    && same_but_children((#[trigger] self@.store[k]), v0.store[k])) || (k == nv.key
                    && same_but_children(self@.store[k], nv)) || (v0.buffer.dom().contains(k)
                    && same_but_children(self@.store[k], v0.buffer[k])) by {
                if vd.store.dom().contains(k) {
                    assert(same_but_children(self@.store[k], vd.store[k]));
                    if vc.store.dom().contains(k) {
                        if k == nv.key {
                            assert(vc.store[k] == nv);
                        } else {
                            assert(va.store.dom().contains(k));
                            assert(same_but_children(va.store[k], v0.store[k]));
                        }
                    }
                } else {
                    assert(vd.buffer.dom().contains(k));
                    assert(self@.store[k] == vd.buffer[k]);
                }
            }
            assert forall|k: u64|
                self@.store.dom().contains(k) && !v0.store.dom().contains(k) && k != nv.key
                implies (#[trigger] self@.store[k]).height > sat_sub(
                max_of(v0.frontier, nv.height),
                v0.depth,
            ) by {
                if vd.store.dom().contains(k) {
                    assert(k == nv.key);
                } else {
                    assert(self@.store[k].height > allowed_oldest_of(vd));
                }
            }
            // what the cleanup removed stays out, short of re-adoption
            assert forall|k: u64|
                !vd.store.dom().contains(k) && !v0.buffer.dom().contains(k) implies !(
            #[trigger] self@.store.dom().contains(k)) by {
                if self@.store.dom().contains(k) {
                    assert(vd.buffer.dom().contains(k));
                }
            }
            assert(same_but_children(self@.root, vd.root));
            assert(same_but_children(self@.root, va.root));
            if advance_due(v0) {
                assert forall|x: u64|
                    v0.store.dom().contains(x) && !va.store.dom().contains(x) implies !(
                #[trigger] self@.store.dom().contains(x)) by {
                    if self@.store.dom().contains(x) {
                        if vd.store.dom().contains(x) {
                            assert(vc.store.dom().contains(x));
                            assert(va.store.dom().contains(x) || x == nv.key);
                        } else {
                            assert(vd.buffer.dom().contains(x));
                            assert(v0.buffer.dom().contains(x));
                        }
                    }
                }
            }
            if !advance_due(v0) {
                assert(va == v0);
                if nv.parent == v0.root.key {
                    assert(self@.root.children == v0.root.children.push(nv.key));
                }
                assert(!vd.store.dom().contains(v0.root.parent));
                if v0.root.height > 0 && v0.index.dom().contains(rh1) {
                    assert forall|k: u64|
                        v0.index[rh1].contains(k) implies !vd.store.dom().contains(k) by {
                        assert(vc.index.dom().contains(rh1) && vc.index[rh1].contains(k)) by {
                            assert(vc.index == v0.index.insert(
                                nv.height,
                                if v0.index.dom().contains(nv.height) {
                                    v0.index[nv.height].push(nv.key)
                                } else {
                                    seq![nv.key]
                                },
                            ));
                            if rh1 == nv.height {
                                let a = choose|a: int|
                                    0 <= a < v0.index[rh1].len() && v0.index[rh1][a] == k;
                                assert(vc.index[rh1][a] == k);
                            }
                        }
                    }
                }
                if v0.root.height > 0 && v0.buffer.dom() == Set::<u64>::empty() {
                    assert(!vd.index.dom().contains(rh1));
                    assert(!self@.index.dom().contains(rh1)) by {
                        if self@.index.dom().contains(rh1) {
                            let bk = choose|bk: u64|
                                vd.buffer.dom().contains(bk) && self@.store.dom().contains(bk)
                                    && (#[trigger] vd.buffer[bk]).height == rh1;
                            assert(v0.buffer.dom().contains(bk));
                        }
                    }
                }
                // attachment to a stored, spared parent
                if v0.store.dom().contains(nv.parent) && cleanup_spares(v0, nv.parent) {
                    assert(vc.store.dom().contains(nv.parent) && vc.store[nv.parent].children
                        == v0.store[nv.parent].children.push(nv.key));
                    assert(vd.store.dom().contains(nv.parent)) by {
                        assert(nv.parent != rp);
                        if v0.root.height > 0 {
                            assert(!(vc.index.dom().contains(rh1) && vc.index[rh1].contains(
                                nv.parent,
                            ))) by {
                                if vc.index.dom().contains(rh1) && vc.index[rh1].contains(
                                    nv.parent,
                                ) {
                                    if rh1 == nv.height {
                                        let a = choose|a: int|
                                            0 <= a < vc.index[rh1].len() && vc.index[rh1][a]
                                                == nv.parent;
                                        if a < v0.index[rh1].len() {
                                            assert(v0.index[rh1][a] == nv.parent);
                                        } else {
                                            assert(nv.parent == nv.key);
                                        }
                                    }
                                }
                            }
                        }
                    }
                    assert(vd.store[nv.parent] == vc.store[nv.parent]);
                    assert(vd.store[nv.parent].children.is_prefix_of(
                        self@.store[nv.parent].children,
                    ));
                }
                if commit_survives(v0, nv) {
                    assert(vc.store[nv.key] == nv);
                    assert(vd.store.dom().contains(nv.key)) by {
                        assert(nv.key != rp);
                        if v0.root.height > 0 {
                            assert(!(vc.index.dom().contains(rh1) && vc.index[rh1].contains(
                                nv.key,
                            ))) by {
                                assert(nv.height != rh1);
                                assert(vc.index == v0.index.insert(
                                    nv.height,
                                    if v0.index.dom().contains(nv.height) {
                                        v0.index[nv.height].push(nv.key)
                                    } else {
                                        seq![nv.key]
                                    },
                                ));
                            }
                        }
                    }
                    assert(vd.store[nv.key] == nv);
                    assert(vd.index.dom().contains(nv.height) && vd.index[nv.height].contains(
                        nv.key,
                    )) by {
                        assert(vc.index[nv.height].contains(nv.key)) by {
                            if v0.index.dom().contains(nv.height) {
                                assert(vc.index[nv.height].last() == nv.key);
                            } else {
                                assert(vc.index[nv.height] =~= seq![nv.key]);
                            }
                        }
                        if v0.root.height > 0 {
                            assert(rh1 != nv.height);
                        }
                    }
                    assert(self@.store.dom().contains(nv.key) && same_but_children(
                        self@.store[nv.key],
                        vd.store[nv.key],
                    ));
                    assert(same_but_children(self@.store[nv.key], nv));
                    assert(self@.index.dom().contains(nv.height)
                        && self@.index[nv.height].contains(nv.key));
                    // adoption: parents that survive the cleanup are seen
                    // by the draining pass
                    assert forall|bk: u64|
                        v0.buffer.dom().contains(bk) && ((#[trigger] v0.buffer[bk]).parent
                            == nv.key || (v0.store.dom().contains(v0.buffer[bk].parent)
                            && cleanup_spares(v0, v0.buffer[bk].parent))) && v0.buffer[bk].height
                            > sat_sub(max_of(v0.frontier, nv.height), v0.depth)
                        implies self@.store.dom().contains(bk)
                        && !self@.buffer.dom().contains(bk) by {
                        let p = v0.buffer[bk].parent;
                        assert(vd.store.dom().contains(p)) by {
                            if p == nv.key {
                            } else {
                                assert(vc.store.dom().contains(p)) by {
                                    assert(va.store.dom().contains(p));
                                }
                                assert(p != rp);
                                if v0.root.height > 0 {
                                    assert(!(vc.index.dom().contains(rh1)
                                        && vc.index[rh1].contains(p))) by {
                                        assert(vc.index == v0.index.insert(
                                            nv.height,
                                            if v0.index.dom().contains(nv.height) {
                                                v0.index[nv.height].push(nv.key)
                                            } else {
                                                seq![nv.key]
                                            },
                                        ));
                                        if vc.index.dom().contains(rh1) && vc.index[
                                            rh1
                                        ].contains(p) {
                                            if rh1 == nv.height {
                                                let a = choose|a: int|
                                                    0 <= a < vc.index[rh1].len() && vc.index[
                                                        rh1
                                                    ][a] == p;
                                                if a < v0.index[rh1].len() {
                                                    assert(v0.index[rh1][a] == p);
                                                } else {
                                                    assert(p == nv.key);
                                                }
                                            }
                                        }
                                    }
                                }
                            }
                        }
                        assert(vd.buffer[bk].height > allowed_oldest_of(vd));
                    }
                }
            }
            // buffered records at or below the new lower edge are gone
            assert forall|bk: u64|
                v0.buffer.dom().contains(bk) && (#[trigger] v0.buffer[bk]).height <= sat_sub(
                    max_of(v0.frontier, nv.height),
                    v0.depth,
                ) implies !self@.buffer.dom().contains(bk) && !self@.store.dom().contains(
                bk,
            ) by {
                assert(vd.buffer[bk].height <= allowed_oldest_of(vd));
            }
            // the whole state still descends from the old one and the
            // candidate, so the height discipline carries over
            assert forall|k: u64|
                #[trigger] self@.buffer.dom().contains(k) implies (v0.buffer.dom().contains(k)
                    && self@.buffer[k] == v0.buffer[k]) || (k == nv.key && self@.buffer[k]
                    == nv) by {
                assert(vd.buffer.dom().contains(k));
            }
            lemma_lineage_transfer(v0, nv, self@);
        }
        Ok(())
    }


    /// Closes the height bucket at `h` and removes every key it listed from
    /// the store, in bulk.
    fn evict_height(&mut self, h: u64)
        requires
            old(self).wf(),
        ensures
            final(self).wf(),
            final(self)@.root == old(self)@.root,
            final(self)@.buffer == old(self)@.buffer,
            final(self)@.frontier == old(self)@.frontier,
            final(self)@.depth == old(self)@.depth,
            final(self)@.value_based == old(self)@.value_based,
            final(self)@.index == if old(self)@.index.dom().contains(h) {
                old(self)@.index.remove(h)
            } else {
                old(self)@.index
            },
            forall|k: u64|
                final(self)@.store.dom().contains(k) <==> old(self)@.store.dom().contains(k) && !(
                old(self)@.index.dom().contains(h) && old(self)@.index[h].contains(k)),
            forall|k: u64|
                final(self)@.store.dom().contains(k) ==> final(self)@.store[k] == old(
                    self,
                )@.store[k],
    {
        let ghost store0 = self@.store;
        match self.nodes_by_height.remove(h) {
            Some(old_bucket) => {
                let ghost bucket = old_bucket@;
                let ghost idx1 = self.nodes_by_height;
                let mut oi: usize = 0;
                while oi < old_bucket.len()
                    invariant
                        oi <= old_bucket@.len(),
                        old_bucket@ == bucket,
                        self.nodes_by_key.wf(),
                        self.buffer == old(self).buffer,
                        self.root == old(self).root,
                        self.height == old(self).height,
                        self.allowed_depth == old(self).allowed_depth,
                        self.value_based == old(self).value_based,
                        self.nodes_by_height == idx1,
                        self.nodes_by_height.wf(),
                        self.buffer.wf(),
                        forall|k: u64|
                            self@.store.dom().contains(k) <==> store0.dom().contains(k)
                                && !bucket.take(oi as int).contains(k),
                        forall|k: u64|
                            self@.store.dom().contains(k) ==> self@.store[k] == store0[k],
                    decreases old_bucket@.len() - oi,
                {
                    let victim = old_bucket[oi];
                    let ghost sm = self@.store;
                    proof {
                        assert(forall|k: u64|
                            sm.dom().contains(k) <==> store0.dom().contains(k) && !bucket.take(
                                oi as int,
                            ).contains(k));
                        assert(forall|k: u64|
                            sm.dom().contains(k) ==> (#[trigger] sm[k]) == store0[k]);
                    }
                    let _gone = self.nodes_by_key.remove(victim);
                    proof {
                        assert(bucket.take(oi + 1) =~= bucket.take(oi as int).push(
                            bucket[oi as int],
                        ));
                        assert forall|k: u64| #[trigger] bucket.take(oi + 1).contains(k) <==> (k
                            == victim || bucket.take(oi as int).contains(k)) by {
                            assert(bucket.take(oi as int).push(victim).contains(k) <==> (k
                                == victim || bucket.take(oi as int).contains(k)));
                        }
                        assert forall|k: u64|
                            self@.store.dom().contains(k) <==> (store0.dom().contains(k)
                                && !bucket.take(oi + 1).contains(k)) by {
                            assert(self@.store.dom().contains(k) <==> sm.dom().contains(k) && k
                                != victim);
                        }
                    }
                    oi += 1;
                }
                proof {
                    assert(bucket.take(bucket.len() as int) =~= bucket);
                    assert(healthy(self@)) by {
                        assert forall|k: u64|
                            self@.store.dom().contains(k) implies !self@.buffer.dom().contains(k)
                            && (#[trigger] self@.store[k]).key == k by {
                            assert(store0.dom().contains(k));
                            assert(self@.store[k] == store0[k]);
                        }
                        assert(self@.store.dom().disjoint(self@.buffer.dom()));
                    }
                }
            },
            None => {},
        }
    }

    /// One pass over the orphan buffer, run after each commit: buffered
    /// records at or below the window's lower edge are discarded for good,
    /// and buffered records whose parent is now stored are attached to it,
    /// moved into the store and the height index, and, where they sit above
    /// the frontier, move the frontier up to them.
    fn drain_buffer(&mut self)
        requires
            old(self).wf(),
        ensures
            final(self).wf(),
            final(self)@.root == old(self)@.root,
            final(self)@.depth == old(self)@.depth,
            final(self)@.value_based == old(self)@.value_based,
            // the frontier only rises, and only to an adopted record's height
            final(self)@.frontier >= old(self)@.frontier,
            final(self)@.frontier == old(self)@.frontier || (exists|bk: u64|
                old(self)@.buffer.dom().contains(bk) && final(self)@.store.dom().contains(bk)
                    && (#[trigger] old(self)@.buffer[bk]).height == final(self)@.frontier),
            // stored records stay, with every field but the child list kept
            // and the child list only extended
            forall|k: u64|
                #[trigger] old(self)@.store.dom().contains(k) ==> final(self)@.store.dom().contains(
                    k,
                ) && same_but_children(final(self)@.store[k], old(self)@.store[k])
                    && old(self)@.store[k].children.is_prefix_of(final(self)@.store[k].children),
            // the store gains only records that sat in the buffer, exactly
            // as they were buffered
            forall|k: u64|
                final(self)@.store.dom().contains(k) ==> old(self)@.store.dom().contains(k) || (old(
                    self,
                )@.buffer.dom().contains(k) && final(self)@.store[k] == old(self)@.buffer[k]),
            final(self)@.buffer.dom().subset_of(old(self)@.buffer.dom()),
            forall|k: u64|
                final(self)@.buffer.dom().contains(k) ==> (#[trigger] final(self)@.buffer[k])
                    == old(self)@.buffer[k],
            // height buckets keep every key they listed, and new buckets
            // open only at adopted records' heights
            forall|h: u64, k: u64|
                old(self)@.index.dom().contains(h) && #[trigger] old(self)@.index[h].contains(k)
                    ==> final(self)@.index.dom().contains(h) && final(self)@.index[h].contains(k),
            forall|h: u64|
                #[trigger] final(self)@.index.dom().contains(h) ==> old(self)@.index.dom().contains(
                    h,
                ) || (exists|bk: u64|
                old(self)@.buffer.dom().contains(bk) && final(self)@.store.dom().contains(bk) && (
                #[trigger] old(self)@.buffer[bk]).height == h),
            // the store gains no record at or below the window's lower edge
            forall|k: u64|
                final(self)@.store.dom().contains(k) && !old(self)@.store.dom().contains(k) ==> (
                #[trigger] final(self)@.store[k]).height > allowed_oldest_of(old(self)@),
            // a buffered record above the window's lower edge whose parent
            // is stored moves to the store
            forall|bk: u64|
                old(self)@.buffer.dom().contains(bk) && old(self)@.store.dom().contains(
                    (#[trigger] old(self)@.buffer[bk]).parent,
                ) && old(self)@.buffer[bk].height > allowed_oldest_of(old(self)@)
                    ==> final(self)@.store.dom().contains(bk) && !final(self)@.buffer.dom().contains(
                    bk,
                ),
            // a buffered record at or below the window's lower edge is
            // discarded for good: out of the buffer, never stored
            forall|bk: u64|
                old(self)@.buffer.dom().contains(bk) && (#[trigger] old(self)@.buffer[bk]).height
                    <= allowed_oldest_of(old(self)@) ==> !final(self)@.buffer.dom().contains(bk)
                    && !final(self)@.store.dom().contains(bk),
    {
        let ghost v0 = self@;
        let ghost buf_entries = self.buffer.entries();
        let ao2 = self.allowed_oldest();
        let mut reinsert: Vec<u64> = Vec::new();
        let mut buffer_clear: Vec<u64> = Vec::new();
        let mut bi: usize = 0;
        while bi < self.buffer.len()
            invariant
                bi <= buf_entries.len(),
                ao2 == allowed_oldest_of(v0),
                self.buffer == old(self).buffer,
                self.root == old(self).root,
                self.height == old(self).height,
                self.allowed_depth == old(self).allowed_depth,
                self.value_based == old(self).value_based,
                self.nodes_by_height == old(self).nodes_by_height,
                buf_entries == self.buffer.entries(),
                self.nodes_by_key.wf(),
                self.nodes_by_height.wf(),
                self.buffer.wf(),
                healthy(v0),
                v0.buffer == self@.buffer,
                v0.root == self@.root,
                self@.store.dom() == v0.store.dom(),
                forall|k: u64|
                    self@.store.dom().contains(k) ==> same_but_children(
                        (#[trigger] self@.store[k]),
                        v0.store[k],
                    ) && v0.store[k].children.is_prefix_of(self@.store[k].children),
                // what the scan has decided so far
                forall|j: int|
                    0 <= j < bi ==> ((#[trigger] buf_entries[j]).height <= ao2
                        ==> buffer_clear@.contains(buf_entries[j].key)),
                forall|j: int|
                    0 <= j < bi ==> ((#[trigger] buf_entries[j]).height > ao2
                        && v0.store.dom().contains(buf_entries[j].parent)
                        ==> reinsert@.contains(buf_entries[j].key)),
                // the lists hold only buffered keys, reinsert only viable ones
                forall|i: int|
                    0 <= i < reinsert@.len() ==> v0.buffer.dom().contains(#[trigger] reinsert@[i])
                        && v0.buffer[reinsert@[i]].height > ao2,
                forall|i: int|
                    0 <= i < reinsert@.len() ==> exists|j: int|
                        0 <= j < bi && buf_entries[j].key == #[trigger] reinsert@[i],
                reinsert@.no_duplicates(),
                forall|i: int|
                    0 <= i < buffer_clear@.len() ==> v0.buffer.dom().contains(
                        #[trigger] buffer_clear@[i],
                    ),
            decreases buf_entries.len() - bi,
        {
            let b = self.buffer.at(bi);
            let bkey = b.key();
            let bheight = b.height();
            let bparent = b.parent();
            proof {
                self.buffer.lemma_entry_is_mapped(bi as int);
            }
            if bheight <= ao2 {
                buffer_clear.push(bkey);
            } else {
                let ghost sb = self@.store;
                let found = self.nodes_by_key.push_child(bparent, bkey);
                proof {
                    if found {
                        assert(v0.store[bparent].children.is_prefix_of(
                            self@.store[bparent].children,
                        )) by {
                            lemma_prefix_push(v0.store[bparent].children, sb[bparent].children, bkey);
                        }
                    }
                }
                if found {
                    proof {
                        // each buffered key is seen once, so the list stays
                        // duplicate free
                        assert forall|i: int|
                            0 <= i < reinsert@.len() implies #[trigger] reinsert@[i] != bkey by {
                            if reinsert@[i] == bkey {
                                let j = choose|j: int|
                                    0 <= j < bi && buf_entries[j].key == bkey;
                                assert(buf_entries[j].key == buf_entries[bi as int].key);
                            }
                        }
                        let ghost r0 = reinsert@;
                        assert(r0.no_duplicates());
                    }
                    let ghost r0 = reinsert@;
                    reinsert.push(bkey);
                    proof {
                        assert forall|a: int, b2: int|
                            0 <= a < reinsert@.len() && 0 <= b2 < reinsert@.len() && a != b2
                            implies reinsert@[a] != reinsert@[b2] by {
                            if a < r0.len() && b2 < r0.len() {
                                assert(r0[a] != r0[b2]);
                            }
                        }
                        assert forall|i: int|
                            0 <= i < reinsert@.len() implies exists|j: int|
                            0 <= j < bi + 1 && buf_entries[j].key == #[trigger] reinsert@[i] by {
                            if i < r0.len() {
                                let j = choose|j: int|
                                    0 <= j < bi && buf_entries[j].key == r0[i];
                                assert(buf_entries[j].key == reinsert@[i]);
                            } else {
                                assert(buf_entries[bi as int].key == reinsert@[i]);
                            }
                        }
                    }
                }
            }
            bi += 1;
        }
        // second phase: move each attached record out of the buffer, into
        // the store and the height index, and under the frontier
        let ghost store_s = self@.store;
        let ghost reins = reinsert@;
        let ghost h0 = self.height;
        let mut ri: usize = 0;
        while ri < reinsert.len()
            invariant
                ri <= reins.len(),
                reinsert@ == reins,
                reins.no_duplicates(),
                ao2 == allowed_oldest_of(v0),
                self.root == old(self).root,
                self.allowed_depth == old(self).allowed_depth,
                self.value_based == old(self).value_based,
                self.nodes_by_key.wf(),
                self.nodes_by_height.wf(),
                self.buffer.wf(),
                healthy(v0),
                v0.root == self@.root,
                h0 == v0.frontier,
                self.height >= h0,
                self.height == h0 || (exists|bk: u64|
                    v0.buffer.dom().contains(bk) && self@.store.dom().contains(bk) && (
                    #[trigger] v0.buffer[bk]).height == self.height),
                forall|i: int|
                    0 <= i < reins.len() ==> v0.buffer.dom().contains(#[trigger] reins[i])
                        && v0.buffer[reins[i]].height > ao2,
                store_s.dom() == v0.store.dom(),
                forall|k: u64|
                    store_s.dom().contains(k) ==> same_but_children(
                        (#[trigger] store_s[k]),
                        v0.store[k],
                    ) && v0.store[k].children.is_prefix_of(store_s[k].children),
                // processed keys moved over, with the buffered record as
                // their stored value
                forall|i: int|
                    0 <= i < ri ==> self@.store.dom().contains(#[trigger] reins[i])
                        && !self@.buffer.dom().contains(reins[i]),
                forall|i: int|
                    0 <= i < ri ==> self@.store[#[trigger] reins[i]] == v0.buffer[reins[i]],
                forall|k: u64|
                    self@.store.dom().contains(k) <==> store_s.dom().contains(k)
                        || reins.take(ri as int).contains(k),
                forall|k: u64|
                    store_s.dom().contains(k) ==> (#[trigger] self@.store[k]) == store_s[k],
                forall|k: u64|
                    self@.buffer.dom().contains(k) <==> v0.buffer.dom().contains(k)
                        && !reins.take(ri as int).contains(k),
                forall|k: u64|
                    self@.buffer.dom().contains(k) ==> self@.buffer[k] == v0.buffer[k],
                forall|h: u64, k: u64|
                    v0.index.dom().contains(h) && #[trigger] v0.index[h].contains(k)
                        ==> self@.index.dom().contains(h) && self@.index[h].contains(k),
                forall|h: u64|
                    #[trigger] self@.index.dom().contains(h) ==> v0.index.dom().contains(h) || (
                    exists|i: int|
                        0 <= i < ri && v0.buffer[#[trigger] reins[i]].height == h),
                keys_consistent(self@.store),
            decreases reins.len() - ri,
        {
            let rkey = reinsert[ri];
            let ghost idx_before = self@.index;
            let ghost hb = self.height;
            let ghost sb2 = self@.store;
            match self.buffer.remove(rkey) {
                Some(reinsertable) => {
                    let rheight = reinsertable.height();
                    self.nodes_by_height.push_key(rheight, rkey);
                    if rheight > self.height {
                        self.height = rheight;
                    }
                    self.nodes_by_key.put(reinsertable);
                    proof {
                        assert(reins.take(ri + 1) =~= reins.take(ri as int).push(rkey));
                        assert(reinsertable@ == v0.buffer[rkey]);
                        if self.height != h0 {
                            if self.height == reinsertable@.height {
                                assert(v0.buffer.dom().contains(rkey)
                                    && self@.store.dom().contains(rkey)
                                    && v0.buffer[rkey].height == self.height);
                            } else {
                                assert(self.height == hb);
                                let bk = choose|bk: u64|
                                    v0.buffer.dom().contains(bk) && sb2.dom().contains(bk) && (
                                    #[trigger] v0.buffer[bk]).height == hb;
                                assert(self@.store.dom().contains(bk));
                            }
                        }
                        assert forall|h: u64, k: u64|
                            v0.index.dom().contains(h) && #[trigger] v0.index[h].contains(k)
                                implies self@.index.dom().contains(h) && self@.index[h].contains(
                                k,
                            ) by {
                            assert(idx_before.dom().contains(h) && idx_before[h].contains(k));
                            if h == reinsertable@.height {
                                let a = choose|a: int|
                                    0 <= a < idx_before[h].len() && idx_before[h][a] == k;
                                assert(self@.index[h][a] == k);
                            }
                        }
                        assert forall|h: u64|
                            #[trigger] self@.index.dom().contains(h) implies
                            v0.index.dom().contains(h) || (exists|i: int|
                            0 <= i < ri + 1 && v0.buffer[#[trigger] reins[i]].height == h) by {
                            if h == reinsertable@.height {
                                assert(v0.buffer[reins[ri as int]].height == h);
                            } else {
                                assert(idx_before.dom().contains(h));
                                if !v0.index.dom().contains(h) {
                                    let i = choose|i: int|
                                        0 <= i < ri && v0.buffer[#[trigger] reins[i]].height
                                            == h;
                                    assert(0 <= i < ri + 1 && v0.buffer[reins[i]].height == h);
                                }
                            }
                        }
                    }
                },
                None => {
                    proof {
                        // the key was drawn from the buffer and not yet
                        // processed, so it is still buffered
                        if reins.take(ri as int).contains(rkey) {
                            let a = choose|a: int| 0 <= a < ri && reins.take(ri as int)[a] == rkey;
                            assert(reins[a] == rkey);
                            assert(reins[ri as int] == rkey);
                            assert(false);
                        }
                        assert(self@.buffer.dom().contains(rkey));
                        assert(false);
                    }
                },
            }
            ri += 1;
        }
        proof {
            assert(reins.take(reins.len() as int) =~= reins);
        }
        // third phase: discard what expired
        let ghost vr = self@;
        let mut ci: usize = 0;
        while ci < buffer_clear.len()
            invariant
                ci <= buffer_clear@.len(),
                self.root == old(self).root,
                self.allowed_depth == old(self).allowed_depth,
                self.value_based == old(self).value_based,
                self.nodes_by_key.wf(),
                self.nodes_by_height.wf(),
                self.buffer.wf(),
                self@.store == vr.store,
                self@.index == vr.index,
                self@.root == vr.root,
                self@.frontier == vr.frontier,
                self@.buffer.dom().subset_of(vr.buffer.dom()),
                forall|k: u64|
                    self@.buffer.dom().contains(k) ==> self@.buffer[k] == vr.buffer[k],
                forall|j: int|
                    0 <= j < ci ==> !self@.buffer.dom().contains(#[trigger] buffer_clear@[j]),
            decreases buffer_clear@.len() - ci,
        {
            let ckey = buffer_clear[ci];
            let ghost bdom = self@.buffer.dom();
            let _gone = self.buffer.remove(ckey);
            proof {
                assert forall|j: int|
                    0 <= j < ci + 1 implies !self@.buffer.dom().contains(
                    #[trigger] buffer_clear@[j],
                ) by {
                    if j < ci {
                        assert(!bdom.contains(buffer_clear@[j]));
                    }
                }
            }
            ci += 1;
        }
        proof {
            assert forall|k: u64|
                v0.store.dom().contains(k) implies self@.store.dom().contains(k)
                && same_but_children((#[trigger] self@.store[k]), v0.store[k])
                && v0.store[k].children.is_prefix_of(self@.store[k].children) by {
                assert(store_s.dom().contains(k));
                assert(self@.store[k] == store_s[k]);
            }
            assert forall|bk: u64|
                v0.buffer.dom().contains(bk) && v0.store.dom().contains(
                    (#[trigger] v0.buffer[bk]).parent,
                ) && v0.buffer[bk].height > ao2 implies self@.store.dom().contains(
                bk,
            ) && !self@.buffer.dom().contains(bk) by {
                old(self).buffer.lemma_mapped_is_entry(bk);
                let j = crate::store::index_of_key(buf_entries, bk);
                assert(buf_entries[j] == v0.buffer[bk]);
                assert(buf_entries[j].height > ao2);
                assert(reins.contains(bk));
                let i = choose|i: int| 0 <= i < reins.len() && reins[i] == bk;
                assert(self@.store.dom().contains(reins[i]));
                assert(!vr.buffer.dom().contains(reins[i]));
            }
            assert forall|bk: u64|
                v0.buffer.dom().contains(bk) && (#[trigger] v0.buffer[bk]).height <= ao2
                implies !self@.buffer.dom().contains(bk) && !self@.store.dom().contains(bk) by {
                old(self).buffer.lemma_mapped_is_entry(bk);
                let j = crate::store::index_of_key(buf_entries, bk);
                assert(buf_entries[j] == v0.buffer[bk]);
                assert(buffer_clear@.contains(buf_entries[j].key));
                let c = choose|c: int|
                    0 <= c < buffer_clear@.len() && buffer_clear@[c] == bk;
                assert(!self@.buffer.dom().contains(buffer_clear@[c]));
                if self@.store.dom().contains(bk) {
                    if store_s.dom().contains(bk) {
                        assert(v0.store.dom().contains(bk));
                    } else {
                        assert(reins.contains(bk));
                        let i = choose|i: int| 0 <= i < reins.len() && reins[i] == bk;
                        assert(v0.buffer[reins[i]].height > ao2);
                    }
                }
            }
            assert forall|k: u64|
                self@.store.dom().contains(k) && !v0.store.dom().contains(k) implies (
            #[trigger] self@.store[k]).height > ao2 by {
                assert(reins.contains(k));
                let i = choose|i: int| 0 <= i < reins.len() && reins[i] == k;
                assert(self@.store[reins[i]] == v0.buffer[reins[i]]);
                assert(v0.buffer[reins[i]].height > ao2);
            }
            assert forall|k: u64|
                self@.store.dom().contains(k) && !v0.store.dom().contains(k) implies (
            #[trigger] self@.store[k]) == v0.buffer[k] by {
                assert(reins.contains(k));
                let i = choose|i: int| 0 <= i < reins.len() && reins[i] == k;
                assert(self@.store[reins[i]] == v0.buffer[reins[i]]);
            }
            assert forall|h: u64|
                #[trigger] self@.index.dom().contains(h) implies v0.index.dom().contains(h) || (
                exists|bk: u64|
                v0.buffer.dom().contains(bk) && self@.store.dom().contains(bk) && (
                #[trigger] v0.buffer[bk]).height == h) by {
                if !v0.index.dom().contains(h) {
                    assert(vr.index.dom().contains(h));
                    let i = choose|i: int|
                        0 <= i < reins.len() && v0.buffer[#[trigger] reins[i]].height == h;
                    assert(v0.buffer.dom().contains(reins[i]));
                    assert(self@.store.dom().contains(reins[i]));
                }
            }
            assert(healthy(self@)) by {
                assert forall|k: u64|
                    self@.store.dom().contains(k) implies !self@.buffer.dom().contains(k) by {
                    if self@.buffer.dom().contains(k) {
                        assert(v0.buffer.dom().contains(k));
                        if store_s.dom().contains(k) {
                            assert(v0.store.dom().contains(k));
                        }
                    }
                }
                assert(self@.store.dom().disjoint(self@.buffer.dom()));
                assert(!self@.store.dom().contains(self@.root.key)) by {
                    if self@.store.dom().contains(v0.root.key) {
                        if store_s.dom().contains(v0.root.key) {
                            assert(v0.store.dom().contains(v0.root.key));
                        } else {
                            assert(v0.buffer.dom().contains(v0.root.key));
                        }
                    }
                }
                assert forall|k: u64|
                    self@.buffer.dom().contains(k) implies (#[trigger] self@.buffer[k]).key
                    == k by {
                    assert(self@.buffer[k] == v0.buffer[k]);
                }
            }
        }
    }


    /// The keys logged in the height index but not stored by key, each
    /// once, in index order. In a healthy tree this is exactly the root's
    /// key — see `lemma_diagnostics_of_healthy` — since the root is logged
    /// by height yet never stored; any other key reported lingers from a
    /// deleted branch whose height has not been evicted yet.
    pub fn check_height_to_key_diff(&self) -> (r: Vec<u64>)
        requires
            self.wf(),
        ensures
            r@.no_duplicates(),
            forall|k: u64|
                #[trigger] r@.contains(k) <==> indexed_key(self@.index, k)
                    && !self@.store.dom().contains(k),
    {
        let ghost ents = self.nodes_by_height.entries();
        let mut r: Vec<u64> = Vec::new();
        let mut i: usize = 0;
        while i < self.nodes_by_height.len()
            invariant
                i <= ents.len(),
                self.wf(),
                ents == self.nodes_by_height.entries(),
                r@.no_duplicates(),
                forall|k: u64|
                    #[trigger] r@.contains(k) ==> indexed_key(self@.index, k)
                        && !self@.store.dom().contains(k),
                forall|j: int, p: int|
                    0 <= j < i && 0 <= p < ents[j].1.len() ==> self@.store.dom().contains(
                        #[trigger] ents[j].1[p],
                    ) || r@.contains(ents[j].1[p]),
            decreases ents.len() - i,
        {
            let bucket = self.nodes_by_height.at(i);
            let ghost keys = bucket.keys@;
            let mut p: usize = 0;
            while p < bucket.keys.len()
                invariant
                    p <= keys.len(),
                    self.wf(),
                    ents == self.nodes_by_height.entries(),
                    0 <= i < ents.len(),
                    keys == ents[i as int].1,
                    keys == bucket.keys@,
                    r@.no_duplicates(),
                    forall|k: u64|
                        #[trigger] r@.contains(k) ==> indexed_key(self@.index, k)
                            && !self@.store.dom().contains(k),
                    forall|j: int, q: int|
                        0 <= j < i && 0 <= q < ents[j].1.len() ==> self@.store.dom().contains(
                            #[trigger] ents[j].1[q],
                        ) || r@.contains(ents[j].1[q]),
                    forall|q: int|
                        0 <= q < p ==> self@.store.dom().contains(#[trigger] keys[q])
                            || r@.contains(keys[q]),
                decreases keys.len() - p,
            {
                let k = bucket.keys[p];
                if !self.nodes_by_key.contains(k) && !contains_key(&r, k) {
                    let ghost r0 = r@;
                    r.push(k);
                    proof {
                        self.nodes_by_height.lemma_entry_is_mapped(i as int);
                        assert(self@.index[ents[i as int].0].contains(k)) by {
                            assert(ents[i as int].1[p as int] == k);
                        }
                        assert(indexed_key(self@.index, k));
                        assert forall|k2: u64| #[trigger] r@.contains(k2) implies r0.contains(k2)
                            || k2 == k by {}
                    }
                }
                p += 1;
            }
            i += 1;
        }
        proof {
            assert forall|k: u64|
                indexed_key(self@.index, k) && !self@.store.dom().contains(k) implies #[trigger] r@.contains(
                k,
            ) by {
                let h = choose|h: u64|
                    self@.index.dom().contains(h) && (#[trigger] self@.index[h]).contains(k);
                self.nodes_by_height.lemma_mapped_is_entry(h);
                let j = crate::height_index::index_of_height(ents, h);
                let q = choose|q: int| 0 <= q < ents[j].1.len() && ents[j].1[q] == k;
                assert(self@.store.dom().contains(ents[j].1[q]) || r@.contains(ents[j].1[q]));
            }
        }
        r
    }

    /// The keys of every stored record, in insertion order; the root's key
    /// is not among them.
    pub fn stored_keys(&self) -> (r: Vec<u64>)
        requires
            self.wf(),
        ensures
            r@.no_duplicates(),
            r@.to_set() == self@.store.dom(),
    {
        let r = self.nodes_by_key.keys();
        proof {
            let s = self.nodes_by_key.entries();
            let ks = s.map_values(|n: NodeView<M>| n.key);
            assert forall|a: int, b: int|
                0 <= a < ks.len() && 0 <= b < ks.len() && a != b implies ks[a] != ks[b] by {
                if a < b {
                    assert(s[a].key != s[b].key);
                } else {
                    assert(s[b].key != s[a].key);
                }
            }
            assert(r@.no_duplicates());
            assert forall|k: u64| #[trigger] r@.to_set().contains(k) implies self@.store.dom().contains(
                k,
            ) by {
                let i = choose|i: int| 0 <= i < ks.len() && ks[i] == k;
                self.nodes_by_key.lemma_entry_is_mapped(i);
            }
            assert forall|k: u64| self@.store.dom().contains(k) implies #[trigger] r@.to_set().contains(
                k,
            ) by {
                self.nodes_by_key.lemma_mapped_is_entry(k);
                let i = crate::store::index_of_key(s, k);
                assert(ks[i] == k);
                assert(r@.contains(k));
            }
            assert(r@.to_set() =~= self@.store.dom());
        }
        r
    }
}

} // verus!
