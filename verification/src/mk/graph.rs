//! How a materialised tree lies in its arena, and what makes the arena a
//! faithful picture of the levels of the tree.
//!
//! The nodes stand level upon level: first the leaves in index order, then
//! the level above them, and so on up to the root, which is the last node.
//! Entry `p` of level `k` is the node at `level_start(n, k) + p`.
use crate::mk::reduction::depth;
use crate::mk::reduction::lemma_level_len;
use crate::mk::reduction::lemma_root_is_top;
use crate::mk::reduction::lemma_top_level;
use crate::mk::reduction::level_at;
use crate::mk::reduction::level_len;
use crate::mk::reduction::merkle_root;
use crate::mk::reduction::next_level;
use crate::mk::reduction::pair_hash;
use crate::mk::reduction::sibling_index;
use crate::tree::lemma_without_pair;
use crate::tree::reparented;
use crate::tree::Node;
use crate::tree::TreeNode;
use crate::utils::crypto;
use vstd::prelude::*;

verus! {

/// A node that carries a hash.
pub type HashNode = Node<crypto::Hash>;

/// The hashes that the nodes of an arena carry, in the arena's order.
pub open spec fn node_values(nodes: Seq<HashNode>) -> Seq<Seq<u8>> {
    Seq::new(nodes.len(), |i: int| nodes[i].value@)
}

/// The position in the arena of the first node of level `k`, in a tree of
/// `n` leaves.
pub open spec fn level_start(n: nat, k: nat) -> nat
    decreases k,
{
    if k == 0 {
        0
    } else {
        level_start(n, (k - 1) as nat) + level_len(n, (k - 1) as nat)
    }
}

/// The node of entry `p` of level `k` carries that entry's hash and holds that
/// entry's children: none on the leaf level, above it the two nodes of its
/// pair, or the one node that was combined with itself.
pub open spec fn placed(
    combine: spec_fn(Seq<u8>, Seq<u8>) -> Seq<u8>,
    nodes: Seq<HashNode>,
    leaves: Seq<Seq<u8>>,
    k: nat,
    p: int,
) -> bool {
    let n = leaves.len();
    let node = nodes[level_start(n, k) + p];
    let ids = node.child_ids();
    let below = level_start(n, (k - 1) as nat);
    &&& node.value@ == level_at(combine, leaves, k)[p]
    &&& if k == 0 {
        node.children is None
    } else if 2 * p + 1 < level_len(n, (k - 1) as nat) {
        node.children is Some && ids.len() == 2 && ids[0] == below + 2 * p && ids[1] == below + 2
            * p + 1
    } else {
        node.children is Some && ids.len() == 1 && ids[0] == below + 2 * p
    }
}

/// The node of entry `p` of level `k` points where it should: to its parent
/// in the level above, unless it is the root, and to the other node of its
/// pair as its only sibling, unless it is the odd one out.
pub open spec fn linked(nodes: Seq<HashNode>, n: nat, k: nat, p: int) -> bool {
    let len = level_len(n, k);
    let start = level_start(n, k);
    let node = nodes[start + p];
    let ids = node.sibling_ids();
    &&& if len == 1 {
        node.parent is None
    } else {
        node.parent matches Some(up) && up == start + len + p / 2
    }
    &&& if sibling_index(p) < len {
        ids.len() == 1 && ids[0] == start + sibling_index(p)
    } else {
        ids.len() == 0
    }
}

/// The node at `at` points nowhere yet: it has no parent and no sibling.
pub open spec fn unlinked(nodes: Seq<HashNode>, at: int) -> bool {
    nodes[at].parent is None && nodes[at].sibling_ids().len() == 0
}

/// The node of entry `p` of level `k` is as it should be.
pub open spec fn node_ok(
    combine: spec_fn(Seq<u8>, Seq<u8>) -> Seq<u8>,
    nodes: Seq<HashNode>,
    leaves: Seq<Seq<u8>>,
    k: nat,
    p: int,
) -> bool {
    placed(combine, nodes, leaves, k, p) && linked(nodes, leaves.len(), k, p)
}

/// The arena `nodes` is the tree over `leaves`: it holds every level from the
/// leaves to the root and nothing else, and every node is as it should be.
/// So every node but the root has one parent, the root has none, and no node
/// has more than one sibling or is its own.
pub open spec fn graph_wf(
    combine: spec_fn(Seq<u8>, Seq<u8>) -> Seq<u8>,
    nodes: Seq<HashNode>,
    leaves: Seq<Seq<u8>>,
) -> bool {
    let n = leaves.len();
    &&& n >= 1
    &&& nodes.len() == level_start(n, depth(n)) + 1
    &&& forall|k: nat, p: int|
        k <= depth(n) && 0 <= p < level_len(n, k) ==> #[trigger] node_ok(
            combine,
            nodes,
            leaves,
            k,
            p,
        )
}

/// The arena while level `k + 1` is being put on top of level `k`, with the
/// first `i` nodes of level `k` already under their parents: the levels
/// below `k` are finished, level `k` is in place, and so are the parents made
/// so far.
pub open spec fn building(
    combine: spec_fn(Seq<u8>, Seq<u8>) -> Seq<u8>,
    nodes: Seq<HashNode>,
    leaves: Seq<Seq<u8>>,
    k: nat,
    i: int,
) -> bool {
    let n = leaves.len();
    let len = level_len(n, k);
    let start = level_start(n, k);
    &&& n >= 1
    &&& 0 <= i <= len
    &&& i % 2 == 0 || i == len
    &&& nodes.len() == start + len + (i + 1) / 2
    &&& forall|j: nat| j < k ==> #[trigger] level_len(n, j) >= 2
    &&& forall|j: nat, p: int|
        j < k && 0 <= p < level_len(n, j) ==> #[trigger] node_ok(combine, nodes, leaves, j, p)
    &&& forall|p: int| 0 <= p < len ==> #[trigger] placed(combine, nodes, leaves, k, p)
    &&& forall|p: int| 0 <= p < i ==> #[trigger] linked(nodes, n, k, p)
    &&& forall|p: int| i <= p < len ==> #[trigger] unlinked(nodes, start + p)
    &&& forall|q: int|
        0 <= q < (i + 1) / 2 ==> #[trigger] placed(combine, nodes, leaves, k + 1, q) && unlinked(
            nodes,
            start + len + q,
        )
}

/// `after` is `before` with one more node at its end, the parent of the nodes
/// at `a` and `b`: it carries their combined hash and holds them as children,
/// they point to it and to each other, and no other node has changed. Where
/// `a` and `b` are one node, the parent holds it once and it has no sibling.
pub open spec fn joined(
    combine: spec_fn(Seq<u8>, Seq<u8>) -> Seq<u8>,
    before: Seq<HashNode>,
    after: Seq<HashNode>,
    a: int,
    b: int,
) -> bool {
    let parent = before.len() as int;
    let top = after[parent];
    &&& 0 <= a < parent
    &&& 0 <= b < parent
    &&& after.len() == parent + 1
    &&& top.value@ == combine(before[a].value@, before[b].value@)
    &&& top.parent is None
    &&& top.sibling_ids().len() == 0
    &&& top.children is Some
    &&& top.child_ids().len() == (if a == b {
        1int
    } else {
        2int
    })
    &&& top.child_ids()[0] == a
    &&& a != b ==> top.child_ids()[1] == b
    &&& child_of(before, after, a, b)
    &&& child_of(before, after, b, a)
    &&& forall|i: int| 0 <= i < parent && i != a && i != b ==> #[trigger] after[i] == before[i]
}

/// The node at `me` has kept its hash and its children, points to the new
/// last node as its parent, and has the node at `other` as its only sibling,
/// or none where `other` is itself.
pub open spec fn child_of(before: Seq<HashNode>, after: Seq<HashNode>, me: int, other: int) -> bool {
    let ids = after[me].sibling_ids();
    &&& after[me].value == before[me].value
    &&& after[me].children == before[me].children
    &&& after[me].parent matches Some(up) && up == before.len()
    &&& if me == other {
        ids.len() == 0
    } else {
        ids.len() == 1 && ids[0] == other
    }
}

/// Pushing a fresh parent for the nodes at `a` and `b` and then putting the
/// two under it joins them.
pub proof fn lemma_joined(
    combine: spec_fn(Seq<u8>, Seq<u8>) -> Seq<u8>,
    before: Seq<HashNode>,
    pushed: Seq<HashNode>,
    after: Seq<HashNode>,
    a: TreeNode,
    b: TreeNode,
)
    requires
        a < before.len(),
        b < before.len(),
        before.len() <= usize::MAX,
        pushed.len() == before.len() + 1,
        forall|i: int| 0 <= i < before.len() ==> pushed[i] == before[i],
        pushed[before.len() as int].value@ == combine(before[a as int].value@, before[b as int].value@),
        pushed[before.len() as int].parent is None,
        pushed[before.len() as int].siblings is None,
        pushed[before.len() as int].children is Some,
        pushed[before.len() as int].child_ids() == if a == b {
            seq![a]
        } else {
            seq![a, b]
        },
        reparented(pushed, after, before.len() as usize, seq![a, b]),
    ensures
        joined(combine, before, after, a as int, b as int),
{
    let pair = seq![a, b];
    let parent = before.len() as int;
    lemma_without_pair(a, b);
    assert(pair[0] == a && pair[1] == b);
    assert forall|i: int| 0 <= i < pushed.len() implies (#[trigger] pair.contains(i as usize) <==> (
    i == a || i == b)) by {}
    assert(after[parent] == pushed[parent]);
    assert(after[a as int].value == before[a as int].value);
    assert(after[b as int].value == before[b as int].value);
    assert forall|i: int| 0 <= i < parent && i != a && i != b implies #[trigger] after[i]
        == before[i] by {
        assert(!pair.contains(i as usize));
        assert(pushed[i] == before[i]);
    }
}

/// A level ends where the next one starts, and the levels follow each other
/// upwards.
pub proof fn lemma_level_start_grows(n: nat, j: nat, k: nat)
    requires
        j < k,
    ensures
        level_start(n, j) + level_len(n, j) <= level_start(n, k),
    decreases k,
{
    if j + 1 < k {
        lemma_level_start_grows(n, j, (k - 1) as nat);
    }
}

/// An arena that holds the bare leaves and nothing else is the start of a
/// build.
pub proof fn lemma_build_start(
    combine: spec_fn(Seq<u8>, Seq<u8>) -> Seq<u8>,
    nodes: Seq<HashNode>,
    leaves: Seq<Seq<u8>>,
)
    requires
        leaves.len() >= 1,
        nodes.len() == leaves.len(),
        forall|i: int|
            0 <= i < nodes.len() ==> (#[trigger] nodes[i]).is_bare() && nodes[i].value@
                == leaves[i],
    ensures
        building(combine, nodes, leaves, 0, 0),
{
    let n = leaves.len();
    assert forall|p: int| 0 <= p < level_len(n, 0) implies #[trigger] placed(
        combine,
        nodes,
        leaves,
        0,
        p,
    ) by {
        assert(nodes[p].is_bare());
    }
    assert forall|p: int| 0 <= p < level_len(n, 0) implies #[trigger] unlinked(
        nodes,
        level_start(n, 0) + p,
    ) by {
        assert(nodes[p].is_bare());
    }
}

/// Putting the next pair of level `k`, or its odd last node, under a new
/// parent is one step of the build.
pub proof fn lemma_build_step(
    combine: spec_fn(Seq<u8>, Seq<u8>) -> Seq<u8>,
    before: Seq<HashNode>,
    after: Seq<HashNode>,
    leaves: Seq<Seq<u8>>,
    k: nat,
    i: int,
)
    requires
        building(combine, before, leaves, k, i),
        level_len(leaves.len(), k) >= 2,
        i < level_len(leaves.len(), k),
        joined(
            combine,
            before,
            after,
            level_start(leaves.len(), k) + i,
            if i + 1 < level_len(leaves.len(), k) {
                level_start(leaves.len(), k) + i + 1
            } else {
                level_start(leaves.len(), k) + i
            },
        ),
    ensures
        building(
            combine,
            after,
            leaves,
            k,
            if i + 1 < level_len(leaves.len(), k) {
                i + 2
            } else {
                i + 1
            },
        ),
{
    let n = leaves.len();
    let len = level_len(n, k) as int;
    let start = level_start(n, k) as int;
    let a = start + i;
    let b = if i + 1 < len {
        start + i + 1
    } else {
        start + i
    };
    let next = if i + 1 < len {
        i + 2
    } else {
        i + 1
    };
    let q = i / 2;
    let level = level_at(combine, leaves, k);
    lemma_level_len(combine, leaves, k);
    assert(level_start(n, k + 1) == start + len);
    assert(level_len(n, k + 1) == (len + 1) / 2);
    assert(before.len() == start + len + q);
    assert forall|j: nat, p: int| j < k && 0 <= p < level_len(n, j) implies #[trigger] node_ok(
        combine,
        after,
        leaves,
        j,
        p,
    ) by {
        lemma_level_start_grows(n, j, k);
        assert(node_ok(combine, before, leaves, j, p));
        assert(after[level_start(n, j) + p] == before[level_start(n, j) + p]);
    }
    assert forall|p: int| 0 <= p < len implies #[trigger] placed(combine, after, leaves, k, p) by {
        assert(placed(combine, before, leaves, k, p));
        if start + p != a && start + p != b {
            assert(after[start + p] == before[start + p]);
        }
    }
    assert forall|p: int| 0 <= p < next implies #[trigger] linked(after, n, k, p) by {
        if p < i {
            assert(linked(before, n, k, p));
            assert(after[start + p] == before[start + p]);
        }
    }
    assert forall|p: int| next <= p < len implies #[trigger] unlinked(after, start + p) by {
        assert(unlinked(before, start + p));
        assert(after[start + p] == before[start + p]);
    }
    assert forall|r: int| 0 <= r < (next + 1) / 2 implies #[trigger] placed(
        combine,
        after,
        leaves,
        k + 1,
        r,
    ) && unlinked(after, start + len + r) by {
        if r < q {
            assert(placed(combine, before, leaves, k + 1, r));
            assert(after[start + len + r] == before[start + len + r]);
        } else {
            assert(r == q);
            assert(placed(combine, before, leaves, k, i));
            assert(level_at(combine, leaves, k + 1) == next_level(combine, level));
            assert(next_level(combine, level)[q] == pair_hash(combine, level, q));
            if i + 1 < len {
                assert(placed(combine, before, leaves, k, i + 1));
            }
        }
    }
    assert(after.len() == start + len + (next + 1) / 2);
    assert(building(combine, after, leaves, k, next));
}

/// When every node of level `k` is under its parent, level `k + 1` is in
/// place and its build can begin.
pub proof fn lemma_build_next(
    combine: spec_fn(Seq<u8>, Seq<u8>) -> Seq<u8>,
    nodes: Seq<HashNode>,
    leaves: Seq<Seq<u8>>,
    k: nat,
)
    requires
        building(combine, nodes, leaves, k, level_len(leaves.len(), k) as int),
        level_len(leaves.len(), k) >= 2,
    ensures
        building(combine, nodes, leaves, k + 1, 0),
{
    let n = leaves.len();
    let len = level_len(n, k) as int;
    let start = level_start(n, k) as int;
    assert(level_start(n, k + 1) == start + len);
    assert(level_len(n, k + 1) == (len + 1) / 2);
    assert forall|j: nat| j < k + 1 implies #[trigger] level_len(n, j) >= 2 by {}
    assert forall|j: nat, p: int| j < k + 1 && 0 <= p < level_len(n, j) implies #[trigger] node_ok(
        combine,
        nodes,
        leaves,
        j,
        p,
    ) by {
        if j == k {
            assert(placed(combine, nodes, leaves, k, p));
            assert(linked(nodes, n, k, p));
        }
    }
    assert forall|p: int| 0 <= p < level_len(n, k + 1) implies #[trigger] unlinked(
        nodes,
        level_start(n, k + 1) + p,
    ) by {
        assert(placed(combine, nodes, leaves, k + 1, p));
    }
}

/// A build that has reached a level of one node is finished: that node is
/// the root, and the arena is the tree.
pub proof fn lemma_build_done(
    combine: spec_fn(Seq<u8>, Seq<u8>) -> Seq<u8>,
    nodes: Seq<HashNode>,
    leaves: Seq<Seq<u8>>,
    k: nat,
)
    requires
        building(combine, nodes, leaves, k, 0),
        level_len(leaves.len(), k) == 1,
    ensures
        k == depth(leaves.len()),
        graph_wf(combine, nodes, leaves),
{
    let n = leaves.len();
    lemma_top_level(n);
    if k < depth(n) {
        assert(level_len(n, k) >= 2);
    }
    if depth(n) < k {
        assert(level_len(n, depth(n)) >= 2);
    }
    assert forall|j: nat, p: int| j <= depth(n) && 0 <= p < level_len(n, j) implies #[trigger] node_ok(
        combine,
        nodes,
        leaves,
        j,
        p,
    ) by {
        if j == k {
            assert(placed(combine, nodes, leaves, k, p));
            assert(unlinked(nodes, level_start(n, k) + p));
        }
    }
}

/// The last node of a tree's arena is its root, and carries the root hash of
/// the leaves.
pub proof fn lemma_graph_root(
    combine: spec_fn(Seq<u8>, Seq<u8>) -> Seq<u8>,
    nodes: Seq<HashNode>,
    leaves: Seq<Seq<u8>>,
)
    requires
        graph_wf(combine, nodes, leaves),
    ensures
        nodes[nodes.len() - 1].value@ == merkle_root(combine, leaves),
        nodes[nodes.len() - 1].parent is None,
{
    let n = leaves.len();
    lemma_top_level(n);
    lemma_root_is_top(combine, leaves);
    assert(node_ok(combine, nodes, leaves, depth(n), 0));
}

/// The first nodes of a tree's arena are its leaves, in index order.
pub proof fn lemma_graph_leaves(
    combine: spec_fn(Seq<u8>, Seq<u8>) -> Seq<u8>,
    nodes: Seq<HashNode>,
    leaves: Seq<Seq<u8>>,
)
    requires
        graph_wf(combine, nodes, leaves),
    ensures
        leaves.len() <= nodes.len(),
        forall|i: int| 0 <= i < leaves.len() ==> (#[trigger] nodes[i]).value@ == leaves[i],
{
    let n = leaves.len();
    if depth(n) > 0 {
        lemma_level_start_grows(n, 0, depth(n));
    }
    assert forall|i: int| 0 <= i < leaves.len() implies (#[trigger] nodes[i]).value@
        == leaves[i] by {
        assert(node_ok(combine, nodes, leaves, 0, i));
    }
}

/// Every entry of every level of a tree has its node inside the arena.
pub proof fn lemma_slot_in_arena(
    combine: spec_fn(Seq<u8>, Seq<u8>) -> Seq<u8>,
    nodes: Seq<HashNode>,
    leaves: Seq<Seq<u8>>,
    k: nat,
    p: int,
)
    requires
        graph_wf(combine, nodes, leaves),
        k <= depth(leaves.len()),
        0 <= p < level_len(leaves.len(), k),
    ensures
        0 <= level_start(leaves.len(), k) + p < nodes.len(),
{
    let n = leaves.len();
    lemma_top_level(n);
    if k < depth(n) {
        lemma_level_start_grows(n, k, depth(n));
    }
}

/// Every position below the end of level `k` is an entry of some level up to
/// `k`: the result is that level and the entry's place in it.
pub proof fn lemma_slot_of(n: nat, k: nat, i: int) -> (at: (nat, int))
    requires
        0 <= i < level_start(n, k) + level_len(n, k),
    ensures
        at.0 <= k,
        0 <= at.1 < level_len(n, at.0),
        i == level_start(n, at.0) + at.1,
    decreases k,
{
    if i >= level_start(n, k) {
        (k, i - level_start(n, k))
    } else {
        lemma_slot_of(n, (k - 1) as nat, i)
    }
}

/// What holds of every node of a tree: the root, which is the last node, has
/// no parent, and every other node has one, which stands after it; a node has
/// at most one sibling and is never its own; and a node holds at most two
/// children, which stand before it.
pub proof fn lemma_every_node(
    combine: spec_fn(Seq<u8>, Seq<u8>) -> Seq<u8>,
    nodes: Seq<HashNode>,
    leaves: Seq<Seq<u8>>,
    i: int,
)
    requires
        graph_wf(combine, nodes, leaves),
        0 <= i < nodes.len(),
    ensures
        nodes[i].parent is None <==> i == nodes.len() - 1,
        nodes[i].parent matches Some(up) ==> i < up < nodes.len(),
        nodes[i].sibling_ids().len() <= 1,
        forall|j: int|
            0 <= j < nodes[i].sibling_ids().len() ==> nodes[i].sibling_ids()[j] != i
                && nodes[i].sibling_ids()[j] < nodes.len(),
        nodes[i].child_ids().len() <= 2,
        forall|j: int| 0 <= j < nodes[i].child_ids().len() ==> nodes[i].child_ids()[j] < i,
{
    let n = leaves.len();
    lemma_top_level(n);
    let (k, p) = lemma_slot_of(n, depth(n), i);
    assert(node_ok(combine, nodes, leaves, k, p));
    if k < depth(n) {
        lemma_level_start_grows(n, k, depth(n));
        lemma_slot_in_arena(combine, nodes, leaves, k + 1, p / 2);
        if sibling_index(p) < level_len(n, k) {
            lemma_slot_in_arena(combine, nodes, leaves, k, sibling_index(p));
        }
    }
}

} // verus!
