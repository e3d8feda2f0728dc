//! The tree of result polygons, held as a pool of nodes linked by index.
use vstd::prelude::*;

use crate::edge::Edge;
use crate::path::Path;
use crate::point::IntPoint;
use crate::{EndType, JoinType, PolyNodeIndex};

verus! {

/// One polygon of a result tree.
pub struct PolyNode<T: IntPoint> {
    /// The index in the global node memory pool
    pub glob_index: PolyNodeIndex,
    /// The index in the current child vector
    pub index: usize,
    pub contour: Path<T>,
    pub parent: Option<PolyNodeIndex>,
    pub childs: Vec<PolyNodeIndex>,
    pub is_open: bool,
    pub join_type: JoinType,
    pub end_type: EndType,
}

/// The result of a clipping operation as a tree: every node is held in
/// `all_nodes` at the position that its `glob_index` names.
pub struct PolyTree<T: IntPoint> {
    /// Pool of nodes
    pub all_nodes: Vec<PolyNode<T>>,
    pub all_edges: Vec<Edge<T>>,
}

/// Every node sits at the position that its `glob_index` names.
#[verifier::opaque]
pub open spec fn nodes_at_own_index<T: IntPoint>(nodes: Seq<PolyNode<T>>) -> bool {
    forall|i: int| 0 <= i < nodes.len() ==> (#[trigger] nodes[i].glob_index)@ == i
}

/// A node's parent comes before it and lists it at the node's `index`.
#[verifier::opaque]
pub open spec fn parents_list_children<T: IntPoint>(nodes: Seq<PolyNode<T>>) -> bool {
    forall|i: int|
        0 <= i < nodes.len() && (#[trigger] nodes[i].parent) is Some ==> {
            let p = nodes[i].parent->0@ as int;
            &&& p < i
            &&& nodes[i].index < nodes[p].childs.len()
            &&& nodes[p].childs@[nodes[i].index as int]@ == i
        }
}

/// Every listed child comes after its parent, names it as parent, and knows
/// its place in the list.
#[verifier::opaque]
pub open spec fn children_name_parents<T: IntPoint>(nodes: Seq<PolyNode<T>>) -> bool {
    forall|p: int, k: int|
        0 <= p < nodes.len() && 0 <= k < nodes[p].childs.len() ==> {
            let c = (#[trigger] nodes[p].childs@[k])@ as int;
            &&& p < c < nodes.len()
            &&& nodes[c].parent is Some
            &&& nodes[c].parent->0@ == p
            &&& nodes[c].index == k
        }
}

/// The links of a node pool agree: each node sits at its own index, a parent
/// comes before its children, and the child lists and the parent links name
/// each other.
pub open spec fn tree_wf<T: IntPoint>(nodes: Seq<PolyNode<T>>) -> bool {
    &&& nodes_at_own_index(nodes)
    &&& parents_list_children(nodes)
    &&& children_name_parents(nodes)
}

/// In a well-formed pool a parent comes before its child, and every node
/// names its own position.
pub proof fn lemma_parent_before<T: IntPoint>(nodes: Seq<PolyNode<T>>, i: int)
    requires
        tree_wf(nodes),
        0 <= i < nodes.len(),
    ensures
        nodes[i].glob_index@ == i,
        nodes[i].parent is Some ==> nodes[i].parent->0@ < i,
        nodes[i].parent is Some ==> nodes[i].index < nodes[nodes[i].parent->0@ as int].childs.len(),
{
    reveal(nodes_at_own_index);
    reveal(parents_list_children);
    assert(nodes[i].glob_index@ == i);
}

proof fn lemma_add_child_positions<T: IntPoint>(
    nodes: Seq<PolyNode<T>>,
    p: int,
    new_parent: PolyNode<T>,
    new_child: PolyNode<T>,
)
    requires
        nodes_at_own_index(nodes),
        0 <= p < nodes.len(),
        new_parent.glob_index == nodes[p].glob_index,
        new_parent.parent == nodes[p].parent,
        new_parent.index == nodes[p].index,
        new_parent.childs@.len() == nodes[p].childs@.len() + 1,
        forall|k: int| 0 <= k < nodes[p].childs@.len() ==> new_parent.childs@[k] == nodes[p].childs@[k],
        new_parent.childs@[nodes[p].childs@.len() as int]@ == nodes.len(),
        new_child.glob_index@ == nodes.len(),
        new_child.parent is Some,
        new_child.parent->0@ == p,
        new_child.index == nodes[p].childs@.len(),
    ensures
        nodes_at_own_index(nodes.update(p, new_parent).push(new_child)),
{
    reveal(nodes_at_own_index);
    let n = nodes.len() as int;
    let m = nodes.update(p, new_parent).push(new_child);
    assert forall|i: int| 0 <= i < m.len() implies (#[trigger] m[i].glob_index)@ == i by {
        if i < n && i != p {
            assert(m[i] == nodes[i]);
        }
    }
}

proof fn lemma_add_child_parents<T: IntPoint>(
    nodes: Seq<PolyNode<T>>,
    p: int,
    new_parent: PolyNode<T>,
    new_child: PolyNode<T>,
)
    requires
        parents_list_children(nodes),
        0 <= p < nodes.len(),
        new_parent.glob_index == nodes[p].glob_index,
        new_parent.parent == nodes[p].parent,
        new_parent.index == nodes[p].index,
        new_parent.childs@.len() == nodes[p].childs@.len() + 1,
        forall|k: int| 0 <= k < nodes[p].childs@.len() ==> new_parent.childs@[k] == nodes[p].childs@[k],
        new_parent.childs@[nodes[p].childs@.len() as int]@ == nodes.len(),
        new_child.glob_index@ == nodes.len(),
        new_child.parent is Some,
        new_child.parent->0@ == p,
        new_child.index == nodes[p].childs@.len(),
    ensures
        parents_list_children(nodes.update(p, new_parent).push(new_child)),
{
    reveal(parents_list_children);
    let n = nodes.len() as int;
    let m = nodes.update(p, new_parent).push(new_child);
    assert forall|i: int| 0 <= i < m.len() && (#[trigger] m[i].parent) is Some implies {
        let q = m[i].parent->0@ as int;
        &&& q < i
        &&& m[i].index < m[q].childs.len()
        &&& m[q].childs@[m[i].index as int]@ == i
    } by {
        if i < n {
            let mi = if i == p { new_parent } else { nodes[i] };
            assert(m[i] == mi);
            assert(mi.parent == nodes[i].parent);
            assert(mi.index == nodes[i].index);
            assert(nodes[i].parent is Some);
            let q = nodes[i].parent->0@ as int;
            let k = nodes[i].index as int;
            assert(q < i && k < nodes[q].childs.len() && nodes[q].childs@[k]@ == i);
            if q == p {
                assert(m[q] == new_parent);
                assert(new_parent.childs@[k] == nodes[p].childs@[k]);
            } else {
                assert(m[q] == nodes[q]);
            }
        } else {
            assert(m[i] == new_child);
            assert(m[p] == new_parent);
        }
    }
}

proof fn lemma_add_child_children<T: IntPoint>(
    nodes: Seq<PolyNode<T>>,
    p: int,
    new_parent: PolyNode<T>,
    new_child: PolyNode<T>,
)
    requires
        children_name_parents(nodes),
        0 <= p < nodes.len(),
        new_parent.glob_index == nodes[p].glob_index,
        new_parent.parent == nodes[p].parent,
        new_parent.index == nodes[p].index,
        new_parent.childs@.len() == nodes[p].childs@.len() + 1,
        forall|k: int| 0 <= k < nodes[p].childs@.len() ==> new_parent.childs@[k] == nodes[p].childs@[k],
        new_parent.childs@[nodes[p].childs@.len() as int]@ == nodes.len(),
        new_child.glob_index@ == nodes.len(),
        new_child.parent is Some,
        new_child.parent->0@ == p,
        new_child.index == nodes[p].childs@.len(),
        new_child.childs@.len() == 0,
    ensures
        children_name_parents(nodes.update(p, new_parent).push(new_child)),
{
    reveal(children_name_parents);
    let n = nodes.len() as int;
    let m = nodes.update(p, new_parent).push(new_child);
    assert forall|q: int, k: int| 0 <= q < m.len() && 0 <= k < m[q].childs.len() implies {
        let c = (#[trigger] m[q].childs@[k])@ as int;
        &&& q < c < m.len()
        &&& m[c].parent is Some
        &&& m[c].parent->0@ == q
        &&& m[c].index == k
    } by {
        if q == p && k == nodes[p].childs@.len() {
        } else {
            assert(q < n);
            assert(m[q].childs@[k] == nodes[q].childs@[k]);
            let c = nodes[q].childs@[k]@ as int;
            assert(nodes[c].parent->0@ == q);
            if c == p {
                assert(m[c].parent == nodes[c].parent);
            }
        }
    }
}

/// Following parent links from `link` reaches a node without a parent in at
/// most `fuel` steps, each link naming a node of the pool.
pub open spec fn parent_chain_ends<T: IntPoint>(
    nodes: Seq<PolyNode<T>>,
    link: Option<PolyNodeIndex>,
    fuel: nat,
) -> bool
    decreases fuel,
{
    match link {
        None => true,
        Some(p) => fuel > 0 && p@ < nodes.len() && parent_chain_ends(
            nodes,
            nodes[p@ as int].parent,
            (fuel - 1) as nat,
        ),
    }
}

/// How many nodes the chain of parent links from `link` passes through
/// (looking at most `fuel` links far): the number of ancestors of a node
/// whose parent link is `link`.
pub open spec fn chain_length<T: IntPoint>(
    nodes: Seq<PolyNode<T>>,
    link: Option<PolyNodeIndex>,
    fuel: nat,
) -> nat
    decreases fuel,
{
    match link {
        None => 0,
        Some(p) => if fuel > 0 && p@ < nodes.len() {
            1 + chain_length(nodes, nodes[p@ as int].parent, (fuel - 1) as nat)
        } else {
            0
        },
    }
}

/// The walk up from `node` to the first ancestor with a next sibling ends
/// in at most `fuel` steps, and every node on it sits within its parent's
/// child list.
pub open spec fn sibling_chain_ok<T: IntPoint>(
    nodes: Seq<PolyNode<T>>,
    node: PolyNode<T>,
    fuel: nat,
) -> bool
    decreases fuel,
{
    match node.parent {
        None => true,
        Some(p) => {
            &&& fuel > 0
            &&& p@ < nodes.len()
            &&& node.index < nodes[p@ as int].childs.len()
            &&& (node.index + 1 < nodes[p@ as int].childs.len() || sibling_chain_ok(
                nodes,
                nodes[p@ as int],
                (fuel - 1) as nat,
            ))
        },
    }
}

/// The node that follows `node` in a depth-first walk once its subtree is
/// done: its next sibling, or that of the nearest ancestor that has one
/// (looking at most `fuel` levels up).
pub open spec fn next_sibling_up<T: IntPoint>(
    nodes: Seq<PolyNode<T>>,
    node: PolyNode<T>,
    fuel: nat,
) -> Option<PolyNodeIndex>
    decreases fuel,
{
    match node.parent {
        None => None,
        Some(p) => if fuel > 0 && p@ < nodes.len() {
            if node.index + 1 == nodes[p@ as int].childs.len() {
                next_sibling_up(nodes, nodes[p@ as int], (fuel - 1) as nat)
            } else {
                Some(nodes[p@ as int].childs@[node.index + 1])
            }
        } else {
            None
        },
    }
}

proof fn lemma_chain_fuel<T: IntPoint>(
    nodes: Seq<PolyNode<T>>,
    link: Option<PolyNodeIndex>,
    f: nat,
    g: nat,
)
    requires
        parent_chain_ends(nodes, link, f),
        f <= g,
    ensures
        parent_chain_ends(nodes, link, g),
        chain_length(nodes, link, f) == chain_length(nodes, link, g),
    decreases f,
{
    if let Some(p) = link {
        lemma_chain_fuel(nodes, nodes[p@ as int].parent, (f - 1) as nat, (g - 1) as nat);
    }
}

proof fn lemma_sibling_fuel<T: IntPoint>(nodes: Seq<PolyNode<T>>, node: PolyNode<T>, f: nat, g: nat)
    requires
        sibling_chain_ok(nodes, node, f),
        f <= g,
    ensures
        sibling_chain_ok(nodes, node, g),
        next_sibling_up(nodes, node, f) == next_sibling_up(nodes, node, g),
    decreases f,
{
    if let Some(p) = node.parent {
        if node.index + 1 == nodes[p@ as int].childs.len() {
            lemma_sibling_fuel(nodes, nodes[p@ as int], (f - 1) as nat, (g - 1) as nat);
        }
    }
}

/// In a well-formed pool every walk up from a node ends: the one of
/// `is_hole` and the one of `get_next_sibling_up`.
pub proof fn lemma_wf_chains_end<T: IntPoint>(nodes: Seq<PolyNode<T>>, i: int)
    requires
        tree_wf(nodes),
        0 <= i < nodes.len(),
    ensures
        parent_chain_ends(nodes, nodes[i].parent, (i + 1) as nat),
        sibling_chain_ok(nodes, nodes[i], (i + 1) as nat),
    decreases i,
{
    lemma_parent_before(nodes, i);
    if let Some(p) = nodes[i].parent {
        lemma_wf_chains_end(nodes, p@ as int);
        lemma_chain_fuel(nodes, nodes[p@ as int].parent, (p@ + 1) as nat, i as nat);
        lemma_sibling_fuel(nodes, nodes[p@ as int], (p@ + 1) as nat, i as nat);
    }
}

impl<T: IntPoint> PolyTree<T> {
    /// Creates a new, empty PolyTree
    pub fn new() -> (r: Self)
        ensures
            r.all_nodes@.len() == 0,
            r.all_edges@.len() == 0,
    {
        Self { all_nodes: Vec::new(), all_edges: Vec::new() }
    }

    /// The first node of the pool, if there is one.
    pub fn get_first(&self) -> (r: Option<&PolyNode<T>>)
        ensures
            self.all_nodes@.len() == 0 ==> r is None,
            self.all_nodes@.len() > 0 ==> r == Some(&self.all_nodes@[0]),
    {
        if self.all_nodes.len() > 0 {
            Some(&self.all_nodes[0])
        } else {
            None
        }
    }

    /// The number of nodes besides the first.
    pub fn total(&self) -> (r: usize)
        ensures
            r == if self.all_nodes@.len() == 0 {
                0
            } else {
                self.all_nodes@.len() - 1
            },
    {
        let mut result = self.all_nodes.len();
        if result != 0 {
            result -= 1;
        }
        result
    }

    /// Removes every node; the edges stay.
    pub fn clear(&mut self)
        ensures
            final(self).all_nodes@.len() == 0,
            final(self).all_edges@ == old(self).all_edges@,
    {
        self.all_nodes.clear();
    }
}

impl<T: IntPoint> PolyNode<T> {
    /// The next node of a depth-first walk; not yet followed, so there is none.
    pub fn get_next(&self) -> (r: Option<PolyNodeIndex>)
        ensures
            r is None,
    {
        None
    }

    /// Adds `child` as the last child of the node at `parent`: the child is
    /// registered in the pool and its links and position are set.
    pub fn add_child(tree: &mut PolyTree<T>, parent: PolyNodeIndex, child: Self) -> (r:
        PolyNodeIndex)
        requires
            parent@ < old(tree).all_nodes@.len(),
            old(tree).all_nodes@.len() < usize::MAX,
        ensures
            tree_wf(old(tree).all_nodes@) && child.childs@.len() == 0 ==> tree_wf(
                final(tree).all_nodes@,
            ),
            nodes_at_own_index(old(tree).all_nodes@) ==> nodes_at_own_index(final(tree).all_nodes@),
            parents_list_children(old(tree).all_nodes@) ==> parents_list_children(
                final(tree).all_nodes@,
            ),
            children_name_parents(old(tree).all_nodes@) && child.childs@.len() == 0
                ==> children_name_parents(final(tree).all_nodes@),
            r@ == old(tree).all_nodes@.len(),
            final(tree).all_nodes@.len() == old(tree).all_nodes@.len() + 1,
            final(tree).all_edges@ == old(tree).all_edges@,
            final(tree).all_nodes@[r@ as int].parent == Some(parent),
            final(tree).all_nodes@[r@ as int].index == old(tree).all_nodes@[parent@ as int].childs.len(),
            final(tree).all_nodes@[r@ as int].contour.poly@ == child.contour.poly@,
            final(tree).all_nodes@[r@ as int].glob_index == r,
            final(tree).all_nodes@[r@ as int].childs@ == child.childs@,
            final(tree).all_nodes@[r@ as int].is_open == child.is_open,
            final(tree).all_nodes@[r@ as int].join_type == child.join_type,
            final(tree).all_nodes@[r@ as int].end_type == child.end_type,
            final(tree).all_nodes@[parent@ as int].childs@ == old(tree).all_nodes@[parent@ as int].childs@.push(r),
            final(tree).all_nodes@[parent@ as int].glob_index == old(tree).all_nodes@[parent@ as int].glob_index,
            final(tree).all_nodes@[parent@ as int].index == old(tree).all_nodes@[parent@ as int].index,
            final(tree).all_nodes@[parent@ as int].contour == old(tree).all_nodes@[parent@ as int].contour,
            final(tree).all_nodes@[parent@ as int].parent == old(tree).all_nodes@[parent@ as int].parent,
            final(tree).all_nodes@[parent@ as int].is_open == old(tree).all_nodes@[parent@ as int].is_open,
            final(tree).all_nodes@[parent@ as int].join_type == old(tree).all_nodes@[parent@ as int].join_type,
            final(tree).all_nodes@[parent@ as int].end_type == old(tree).all_nodes@[parent@ as int].end_type,
            forall|i: int|
                0 <= i < old(tree).all_nodes@.len() && i != parent@ ==> #[trigger] final(tree).all_nodes@[i]
                    == old(tree).all_nodes@[i],
    {
        let mut node = child;
        let glob_cnt = tree.all_nodes.len();
        let p = parent.index();
        let cnt = tree.all_nodes[p].childs.len();
        let idx = PolyNodeIndex::new(glob_cnt);
        node.parent = Some(parent);
        node.index = cnt;
        node.glob_index = idx;
        let ghost new_child = node;
        let ghost old_nodes = tree.all_nodes@;
        tree.all_nodes.set_and_swap(p, &mut node);
        node.childs.push(idx);
        let ghost new_parent = node;
        tree.all_nodes.set_and_swap(p, &mut node);
        tree.all_nodes.push(node);
        proof {
            if nodes_at_own_index(old_nodes) {
                lemma_add_child_positions(old_nodes, p as int, new_parent, new_child);
            }
            if parents_list_children(old_nodes) {
                lemma_add_child_parents(old_nodes, p as int, new_parent, new_child);
            }
            if children_name_parents(old_nodes) && new_child.childs@.len() == 0 {
                lemma_add_child_children(old_nodes, p as int, new_parent, new_child);
            }
            assert(tree.all_nodes@ == old_nodes.update(p as int, new_parent).push(new_child));
        }
        idx
    }

    /// The node that follows this one in a depth-first walk once its subtree
    /// is done.
    pub fn get_next_sibling_up(&self, tree: &PolyTree<T>) -> (r: Option<PolyNodeIndex>)
        requires
            exists|f: nat| sibling_chain_ok(tree.all_nodes@, *self, f),
        ensures
            forall|f: nat|
                #[trigger] sibling_chain_ok(tree.all_nodes@, *self, f) ==> r == next_sibling_up(
                    tree.all_nodes@,
                    *self,
                    f,
                ),
    {
        let ghost nodes = tree.all_nodes@;
        let ghost fuel = choose|f: nat| sibling_chain_ok(nodes, *self, f);
        let ghost mut f = fuel;
        proof {
            assert forall|g: nat| #[trigger] sibling_chain_ok(nodes, *self, g) implies next_sibling_up(
                nodes,
                *self,
                g,
            ) == next_sibling_up(nodes, *self, fuel) by {
                if g <= fuel {
                    lemma_sibling_fuel(nodes, *self, g, fuel);
                } else {
                    lemma_sibling_fuel(nodes, *self, fuel, g);
                }
            }
        }
        let mut cur = self;
        loop
            invariant
                nodes == tree.all_nodes@,
                sibling_chain_ok(nodes, *cur, f),
                next_sibling_up(nodes, *self, fuel) == next_sibling_up(nodes, *cur, f),
                forall|g: nat| #[trigger]
                    sibling_chain_ok(nodes, *self, g) ==> next_sibling_up(nodes, *self, g)
                        == next_sibling_up(nodes, *self, fuel),
            decreases f,
        {
            match cur.parent {
                None => {
                    return None;
                },
                Some(parent) => {
                    let parent_node = &tree.all_nodes[parent.index()];
                    if cur.index == parent_node.childs.len() - 1 {
                        cur = parent_node;
                        proof {
                            f = (f - 1) as nat;
                        }
                    } else {
                        return Some(parent_node.childs[cur.index + 1]);
                    }
                },
            }
        }
    }

    /// Whether the node is a hole: true when it has an even number of
    /// ancestors.
    pub fn is_hole(&self, tree: &PolyTree<T>) -> (r: bool)
        requires
            exists|f: nat| parent_chain_ends(tree.all_nodes@, self.parent, f),
        ensures
            forall|f: nat|
                #[trigger] parent_chain_ends(tree.all_nodes@, self.parent, f) ==> r == (chain_length(
                    tree.all_nodes@,
                    self.parent,
                    f,
                ) % 2 == 0),
    {
        let ghost nodes = tree.all_nodes@;
        let ghost fuel = choose|f: nat| parent_chain_ends(nodes, self.parent, f);
        let ghost mut f = fuel;
        let mut result = true;
        let mut node_idx = self.parent;
        let ghost mut steps: nat = 0;
        loop
            invariant
                nodes == tree.all_nodes@,
                parent_chain_ends(nodes, self.parent, fuel),
                parent_chain_ends(nodes, node_idx, f),
                chain_length(nodes, self.parent, fuel) == steps + chain_length(nodes, node_idx, f),
                result == (steps % 2 == 0),
            ensures
                chain_length(nodes, self.parent, fuel) == steps,
                result == (steps % 2 == 0),
            decreases f,
        {
            match node_idx {
                Some(idx) => {
                    result = !result;
                    proof {
                        steps = steps + 1;
                    }
                    node_idx = tree.all_nodes[idx.index()].parent;
                    proof {
                        f = (f - 1) as nat;
                    }
                },
                None => {
                    break ;
                },
            }
        }
        proof {
            assert forall|g: nat| #[trigger] parent_chain_ends(nodes, self.parent, g) implies result
                == (chain_length(nodes, self.parent, g) % 2 == 0) by {
                if g <= fuel {
                    lemma_chain_fuel(nodes, self.parent, g, fuel);
                } else {
                    lemma_chain_fuel(nodes, self.parent, fuel, g);
                }
            }
        }
        result
    }

    pub fn child_count(&self) -> (r: usize)
        ensures
            r == self.childs@.len(),
    {
        self.childs.len()
    }
}

/// The walk to the next subtree: a node that is not the last child of its
/// parent is followed by its next sibling; the last child is followed by
/// whatever follows its parent, at every depth; a node without a parent is
/// followed by nothing.
pub proof fn lemma_next_sibling_up_steps<T: IntPoint>(
    nodes: Seq<PolyNode<T>>,
    node: PolyNode<T>,
    f: nat,
)
    requires
        sibling_chain_ok(nodes, node, f),
    ensures
        node.parent is None ==> next_sibling_up(nodes, node, f) is None,
        node.parent matches Some(p) ==> {
            &&& p@ < nodes.len()
            &&& node.index < nodes[p@ as int].childs.len()
            &&& node.index + 1 < nodes[p@ as int].childs.len() ==> next_sibling_up(nodes, node, f)
                == Some(nodes[p@ as int].childs@[node.index + 1])
            &&& node.index + 1 == nodes[p@ as int].childs.len() ==> {
                &&& sibling_chain_ok(nodes, nodes[p@ as int], (f - 1) as nat)
                &&& next_sibling_up(nodes, node, f) == next_sibling_up(
                    nodes,
                    nodes[p@ as int],
                    (f - 1) as nat,
                )
            }
        },
{
}

/// A child is a hole exactly when its parent is not: the child has one
/// ancestor more than its parent.
pub proof fn lemma_hole_alternates<T: IntPoint>(nodes: Seq<PolyNode<T>>, child: PolyNode<T>, f: nat)
    requires
        child.parent is Some,
        parent_chain_ends(nodes, child.parent, f),
    ensures
        parent_chain_ends(nodes, nodes[child.parent->0@ as int].parent, (f - 1) as nat),
        chain_length(nodes, child.parent, f) == 1 + chain_length(
            nodes,
            nodes[child.parent->0@ as int].parent,
            (f - 1) as nat,
        ),
        (chain_length(nodes, child.parent, f) % 2 == 0) == !(chain_length(
            nodes,
            nodes[child.parent->0@ as int].parent,
            (f - 1) as nat,
        ) % 2 == 0),
{
}

} // verus!
