//! The nodes of a materialised tree. All nodes of one tree live in a flat
//! arena, a `Vec` of nodes, and a node refers to another by its position
//! there. A parent holds its children; the links to a parent and to siblings
//! only point, so no link keeps a node alive.
use vstd::prelude::*;

verus! {

/// The handle of a node: its position in the arena.
pub type TreeNode = usize;

/// The link of a node to its parent.
pub type NodeParent = TreeNode;

/// The children that a node holds.
pub type NodeChildren = Vec<TreeNode>;

/// The links of a node to the other children of its parent.
pub type NodeSiblings = Vec<TreeNode>;

/// A node of a tree: a value, the link to its parent, the children it holds
/// and the links to its siblings.
pub struct Node<T> {
    pub value: T,
    pub parent: Option<NodeParent>,
    pub children: Option<NodeChildren>,
    pub siblings: Option<NodeSiblings>,
}

/// The handles of `handles` that are not `me`, in their order.
pub open spec fn without(handles: Seq<TreeNode>, me: TreeNode) -> Seq<TreeNode>
    decreases handles.len(),
{
    if handles.len() == 0 {
        Seq::empty()
    } else if handles.last() == me {
        without(handles.drop_last(), me)
    } else {
        without(handles.drop_last(), me).push(handles.last())
    }
}

/// Of two handles, the others of the first: the second, unless it is the
/// same node.
pub proof fn lemma_without_pair(a: TreeNode, b: TreeNode)
    ensures
        without(seq![a, b], a) == if a == b {
            Seq::<TreeNode>::empty()
        } else {
            seq![b]
        },
        without(seq![a, b], b) == if a == b {
            Seq::<TreeNode>::empty()
        } else {
            seq![a]
        },
{
    let pair = seq![a, b];
    let none = Seq::<TreeNode>::empty();
    assert(pair.drop_last() == seq![a]);
    assert(seq![a].drop_last() == none);
    assert(without(none, a) == none && without(none, b) == none);
    assert(without(seq![a], a) == none);
    assert(without(seq![a], b) == if a == b {
        Seq::<TreeNode>::empty()
    } else {
        seq![a]
    });
    if a != b {
        assert(Seq::<TreeNode>::empty().push(b) == seq![b]);
        assert(Seq::<TreeNode>::empty().push(a) == seq![a]);
    }
}

/// `after` is `before` with every node of the list `siblings` put under
/// `parent`: each of them has `parent` as its parent and the others of the
/// list as its siblings, with its value and children as they were, and every
/// node outside the list is as it was.
pub open spec fn reparented<T>(
    before: Seq<Node<T>>,
    after: Seq<Node<T>>,
    parent: TreeNode,
    siblings: Seq<TreeNode>,
) -> bool {
    &&& after.len() == before.len()
    &&& forall|i: int|
        0 <= i < before.len() && siblings.contains(i as usize) ==> {
            &&& (#[trigger] after[i]).parent == Some(parent)
            &&& after[i].siblings is Some
            &&& after[i].sibling_ids() == without(siblings, i as usize)
            &&& after[i].value == before[i].value
            &&& after[i].children == before[i].children
        }
    &&& forall|i: int|
        0 <= i < before.len() && !siblings.contains(i as usize) ==> (#[trigger] after[i])
            == before[i]
}

/// A copy of a list of handles.
pub fn copy_handles(handles: &Vec<TreeNode>) -> (copy: Vec<TreeNode>)
    ensures
        copy@ == handles@,
{
    let mut copy: Vec<TreeNode> = Vec::new();
    let mut i: usize = 0;
    while i < handles.len()
        invariant
            i <= handles.len(),
            copy@ == handles@.subrange(0, i as int),
        decreases handles.len() - i,
    {
        copy.push(handles[i]);
        i += 1;
    }
    assert(handles@.subrange(0, i as int) == handles@);
    copy
}

impl<T> Node<T> {
    /// The handles of this node's children, none where it has no list.
    pub open spec fn child_ids(&self) -> Seq<TreeNode> {
        match self.children {
            Some(children) => children@,
            None => Seq::empty(),
        }
    }

    /// The handles of this node's siblings, none where it has no list.
    pub open spec fn sibling_ids(&self) -> Seq<TreeNode> {
        match self.siblings {
            Some(siblings) => siblings@,
            None => Seq::empty(),
        }
    }

    /// A node that has a value and nothing else: no parent, no children, no
    /// siblings.
    pub open spec fn is_bare(&self) -> bool {
        &&& self.parent is None
        &&& self.children is None
        &&& self.siblings is None
    }

    /// A node with the given value and links, ready to be put into an arena.
    pub fn new(
        value: T,
        children: Option<NodeChildren>,
        siblings: Option<NodeSiblings>,
        parent: Option<NodeParent>,
    ) -> (node: Node<T>)
        ensures
            node.value == value,
            node.children == children,
            node.siblings == siblings,
            node.parent == parent,
    {
        Node { children, parent, siblings, value }
    }

    /// A second node with a clone of the value of `a` and with the same
    /// links.
    pub fn clone<A: Clone>(a: &Node<A>) -> (copy: Node<A>)
        ensures
            cloned::<A>(a.value, copy.value),
            copy.parent == a.parent,
            copy.child_ids() == a.child_ids(),
            copy.children is Some <==> a.children is Some,
            copy.sibling_ids() == a.sibling_ids(),
            copy.siblings is Some <==> a.siblings is Some,
    {
        let children = match &a.children {
            Some(children) => Some(copy_handles(children)),
            None => None,
        };
        let siblings = match &a.siblings {
            Some(siblings) => Some(copy_handles(siblings)),
            None => None,
        };
        Node::new(a.value.clone(), children, siblings, a.parent)
    }

    /// Makes `parent` the parent of the node at `node`. Nothing else changes.
    pub fn set_parent(nodes: &mut Vec<Node<T>>, parent: TreeNode, node: TreeNode)
        requires
            node < old(nodes).len(),
        ensures
            final(nodes).len() == old(nodes).len(),
            final(nodes)[node as int].parent == Some(parent),
            final(nodes)[node as int].value == old(nodes)[node as int].value,
            final(nodes)[node as int].children == old(nodes)[node as int].children,
            final(nodes)[node as int].siblings == old(nodes)[node as int].siblings,
            forall|i: int|
                0 <= i < old(nodes).len() && i != node ==> final(nodes)[i] == old(nodes)[i],
    {
        nodes[node].parent = Some(parent);
    }

    /// Makes `parent` the parent of each node in `siblings`, and gives each of
    /// them the others of the list as its siblings. A node is never its own
    /// sibling. Nodes outside the list do not change.
    pub fn set_parent_and_siblings(
        nodes: &mut Vec<Node<T>>,
        parent: TreeNode,
        siblings: &[TreeNode],
    )
        requires
            forall|j: int| 0 <= j < siblings@.len() ==> siblings@[j] < old(nodes).len(),
        ensures
            reparented(old(nodes)@, final(nodes)@, parent, siblings@),
    {
        let mut j: usize = 0;
        while j < siblings.len()
            invariant
                j <= siblings.len(),
                nodes.len() == old(nodes).len(),
                forall|m: int| 0 <= m < siblings@.len() ==> siblings@[m] < nodes.len(),
                forall|i: int|
                    0 <= i < nodes.len() && siblings@.subrange(0, j as int).contains(i as usize)
                        ==> {
                        &&& (#[trigger] nodes[i]).parent == Some(parent)
                        &&& nodes[i].siblings is Some
                        &&& nodes[i].sibling_ids() == without(siblings@, i as usize)
                        &&& nodes[i].value == old(nodes)[i].value
                        &&& nodes[i].children == old(nodes)[i].children
                    },
                forall|i: int|
                    0 <= i < nodes.len() && !siblings@.subrange(0, j as int).contains(i as usize)
                        ==> (#[trigger] nodes[i]) == old(nodes)[i],
            decreases siblings.len() - j,
        {
            let me = siblings[j];
            let mut new_siblings: Vec<TreeNode> = Vec::new();
            let mut m: usize = 0;
            while m < siblings.len()
                invariant
                    m <= siblings.len(),
                    me == siblings@[j as int],
                    new_siblings@ == without(siblings@.subrange(0, m as int), me),
                decreases siblings.len() - m,
            {
                assert(siblings@.subrange(0, m + 1).drop_last() == siblings@.subrange(0, m as int));
                if siblings[m] != me {
                    new_siblings.push(siblings[m]);
                }
                m += 1;
            }
            assert(siblings@.subrange(0, m as int) == siblings@);
            let ghost before = nodes@;
            nodes[me].parent = Some(parent);
            nodes[me].siblings = Some(new_siblings);
            proof {
                let done = siblings@.subrange(0, j as int);
                let next = siblings@.subrange(0, j + 1);
                assert(next == done.push(me));
                assert forall|i: int| 0 <= i < nodes.len() implies (#[trigger] next.contains(
                    i as usize,
                ) <==> (done.contains(i as usize) || i == me)) by {
                    if done.contains(i as usize) {
                        let w = choose|w: int| 0 <= w < done.len() && done[w] == i as usize;
                        assert(next[w] == i as usize);
                    }
                    if i == me {
                        assert(next[j as int] == me);
                    }
                }
            }
            j += 1;
        }
        assert(siblings@.subrange(0, j as int) == siblings@);
    }

    /// The handle of the sibling at position `idx` of this node's list, where
    /// there is one.
    pub fn get_sibling(&self, idx: usize) -> (sibling: Option<TreeNode>)
        ensures
            sibling == if idx < self.sibling_ids().len() {
                Some(self.sibling_ids()[idx as int])
            } else {
                None
            },
    {
        match &self.siblings {
            Some(siblings) => {
                if idx < siblings.len() {
                    Some(siblings[idx])
                } else {
                    None
                }
            },
            None => None,
        }
    }

    /// The handle of this node's parent, where it has one.
    pub fn get_parent(&self) -> (parent: Option<TreeNode>)
        ensures
            parent == self.parent,
    {
        self.parent
    }
}

} // verus!
