use clipper::{EndType, IntPoint2d, JoinType, Path, PolyNode, PolyNodeIndex, PolyTree};

fn node(glob: usize) -> PolyNode<IntPoint2d> {
    PolyNode {
        glob_index: PolyNodeIndex::new(glob),
        index: 0,
        contour: Path { poly: Vec::new() },
        parent: None,
        childs: Vec::new(),
        is_open: false,
        join_type: JoinType::Square,
        end_type: EndType::ClosedPolygon,
    }
}

fn tree_with_root() -> PolyTree<IntPoint2d> {
    let mut t = PolyTree::new();
    t.all_nodes.push(node(0));
    t
}

#[test]
fn empty_tree() {
    let t: PolyTree<IntPoint2d> = PolyTree::new();
    assert_eq!(t.total(), 0);
    assert!(t.get_first().is_none());
}

#[test]
fn total_counts_nodes_besides_the_first() {
    let mut t = tree_with_root();
    assert_eq!(t.total(), 0);
    let root = PolyNodeIndex::new(0);
    PolyNode::add_child(&mut t, root, node(0));
    PolyNode::add_child(&mut t, root, node(0));
    assert_eq!(t.total(), 2);
    assert_eq!(t.get_first().unwrap().glob_index, root);
    t.clear();
    assert_eq!(t.total(), 0);
    assert!(t.get_first().is_none());
}

#[test]
fn add_child_links_parent_and_child() {
    let mut t = tree_with_root();
    let root = PolyNodeIndex::new(0);
    let a = PolyNode::add_child(&mut t, root, node(0));
    let b = PolyNode::add_child(&mut t, root, node(0));
    let c = PolyNode::add_child(&mut t, a, node(0));
    assert_eq!((a.index(), b.index(), c.index()), (1, 2, 3));
    assert_eq!(t.all_nodes[0].childs, vec![a, b]);
    assert_eq!(t.all_nodes[0].child_count(), 2);
    assert_eq!(t.all_nodes[1].childs, vec![c]);
    assert_eq!(t.all_nodes[2].index, 1);
    assert_eq!(t.all_nodes[3].parent, Some(a));
    assert_eq!(t.all_nodes[3].index, 0);
    assert_eq!(t.all_nodes[3].glob_index, c);
}

#[test]
fn holes_alternate_with_depth() {
    let mut t = tree_with_root();
    let root = PolyNodeIndex::new(0);
    let a = PolyNode::add_child(&mut t, root, node(0));
    let c = PolyNode::add_child(&mut t, a, node(0));
    let d = PolyNode::add_child(&mut t, c, node(0));
    assert!(t.all_nodes[0].is_hole(&t));
    assert!(!t.all_nodes[a.index()].is_hole(&t));
    assert!(t.all_nodes[c.index()].is_hole(&t));
    assert!(!t.all_nodes[d.index()].is_hole(&t));
}

#[test]
fn next_sibling_up_walks_to_the_next_subtree() {
    let mut t = tree_with_root();
    let root = PolyNodeIndex::new(0);
    let a = PolyNode::add_child(&mut t, root, node(0));
    let b = PolyNode::add_child(&mut t, root, node(0));
    let a1 = PolyNode::add_child(&mut t, a, node(0));
    let a2 = PolyNode::add_child(&mut t, a, node(0));
    assert_eq!(t.all_nodes[a1.index()].get_next_sibling_up(&t), Some(a2));
    assert_eq!(t.all_nodes[a2.index()].get_next_sibling_up(&t), Some(b));
    assert_eq!(t.all_nodes[a.index()].get_next_sibling_up(&t), Some(b));
    assert_eq!(t.all_nodes[b.index()].get_next_sibling_up(&t), None);
    assert_eq!(t.all_nodes[0].get_next_sibling_up(&t), None);
    assert_eq!(t.all_nodes[0].get_next(), None);
}

#[test]
fn holes_and_siblings_need_only_a_finite_parent_chain() {
    // a pool whose parent comes after its child: not built by add_child,
    // but every walk up still ends
    let mut t: PolyTree<IntPoint2d> = PolyTree::new();
    let mut child = node(0);
    child.parent = Some(PolyNodeIndex::new(1));
    child.index = 0;
    let mut parent = node(1);
    parent.childs = vec![PolyNodeIndex::new(0), PolyNodeIndex::new(2)];
    let mut second = node(2);
    second.parent = Some(PolyNodeIndex::new(1));
    second.index = 1;
    t.all_nodes.push(child);
    t.all_nodes.push(parent);
    t.all_nodes.push(second);
    assert!(!t.all_nodes[0].is_hole(&t));
    assert!(t.all_nodes[1].is_hole(&t));
    assert_eq!(t.all_nodes[0].get_next_sibling_up(&t), Some(PolyNodeIndex::new(2)));
    assert_eq!(t.all_nodes[2].get_next_sibling_up(&t), None);
}
