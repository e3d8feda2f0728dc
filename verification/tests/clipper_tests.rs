use clipper::clipper::{
    Clipper, ClipperBuilder, ClipperInitOptions, ThreadPool, EXECUTE_LOCKED, PRESERVE_COLINEAR,
    STRICT_SIMPLE,
};
use clipper::{
    ClipType, Edge, EdgeIndex, EdgeSide, EndType, IntPoint, IntPoint2d, IntPoint3d, JoinType, Path,
    Paths, PolyFillType, PolyNode, PolyNodeIndex, PolyTree, PolyType,
};

type ZFill = fn(IntPoint3d, IntPoint3d) -> IntPoint3d;

fn z_mid(a: IntPoint3d, b: IntPoint3d) -> IntPoint3d {
    IntPoint3d { x: a.x, y: a.y, z: (a.z + b.z) / 2 }
}

fn options(el: bool, ss: bool, pc: bool) -> ClipperInitOptions {
    ClipperInitOptions { execute_locked: el, strict_simple: ss, preserve_colinear: pc }
}

fn clipper_with(ct: ClipType, subj: PolyFillType, clip: PolyFillType) -> Clipper<'static, ZFill> {
    let mut c = ClipperBuilder::<ZFill>::new(options(false, false, false), None).build();
    c.clip_type = ct;
    c.subj_fill_type = subj;
    c.clip_fill_type = clip;
    c
}

fn edge(pt: PolyType, delta: u8, wc: isize, wc2: isize) -> Edge<IntPoint2d> {
    let o = IntPoint2d::new(0, 0);
    let i = EdgeIndex::new(0);
    Edge {
        bot: o,
        cur: o,
        top: o,
        poly_typ: pt,
        side: EdgeSide::Left,
        winding_delta: delta,
        winding_count: wc,
        winding_count_2: wc2,
        out_idx: -1,
        next: i,
        prev: i,
        next_in_lml: i,
        next_in_ael: i,
        prev_in_ael: i,
        next_in_sel: i,
        prev_in_sel: i,
    }
}

#[test]
fn builder_keeps_options_and_pool() {
    let pool = ThreadPool;
    let mut b = ClipperBuilder::<ZFill>::new(options(true, false, true), Some(&pool));
    assert!(b.z_fill.is_none());
    assert!(b.options.execute_locked && !b.options.strict_simple && b.options.preserve_colinear);
    b.with_z_fill_function(Some(z_mid as ZFill));
    let c = b.build();
    let f = c.z_fill.unwrap();
    assert_eq!(f(IntPoint3d { x: 1, y: 2, z: 4 }, IntPoint3d { x: 0, y: 0, z: 8 }).z, 6);
    assert!(c.thread_pool.is_some());
}

#[test]
fn build_sets_defaults() {
    for (el, ss, pc) in [(false, false, false), (true, true, true), (true, false, false)] {
        let c = ClipperBuilder::<ZFill>::new(options(el, ss, pc), None).build();
        assert_eq!((c.options & EXECUTE_LOCKED) != 0, el);
        assert_eq!((c.options & STRICT_SIMPLE) != 0, ss);
        assert_eq!((c.options & PRESERVE_COLINEAR) != 0, pc);
        assert_eq!(c.options & !(EXECUTE_LOCKED | STRICT_SIMPLE | PRESERVE_COLINEAR), 0);
        assert_eq!(c.subj_fill_type, PolyFillType::EvenOdd);
        assert_eq!(c.clip_fill_type, PolyFillType::EvenOdd);
        assert_eq!(c.clip_type, ClipType::Intersection);
        assert!(c.z_fill.is_none());
        assert!(c.thread_pool.is_none());
    }
}

#[test]
fn strict_simple_alone_sets_only_its_bit() {
    let c = ClipperBuilder::<ZFill>::new(options(false, true, false), None).build();
    assert_eq!(c.options, STRICT_SIMPLE);
    assert_ne!(c.options, 0);
    let c = ClipperBuilder::<ZFill>::new(options(true, false, true), None).build();
    assert_eq!(c.options, EXECUTE_LOCKED | PRESERVE_COLINEAR);
}

#[test]
fn a_locked_clipper_refuses_to_execute() {
    let mut c = ClipperBuilder::<ZFill>::new(options(true, false, false), None).build();
    let mut sol = Paths { paths: vec![Path { poly: vec![IntPoint2d::new(1, 1)] }] };
    assert!(c.execute_paths(ClipType::Union, &mut sol, PolyFillType::NonZero).is_err());
    assert_eq!(sol.paths.len(), 1);
    assert_eq!(c.clip_type, ClipType::Intersection);
    let mut tree: PolyTree<IntPoint2d> = PolyTree::new();
    tree.all_nodes.push(node(vec![], false));
    assert!(c.execute_polytree(ClipType::Xor, &mut tree, PolyFillType::Positive).is_err());
    assert_eq!(tree.all_nodes.len(), 1);
}

#[test]
fn execute_into_paths_empties_the_solution() {
    let mut c = ClipperBuilder::<ZFill>::new(options(false, false, false), None).build();
    let mut sol = Paths { paths: vec![Path { poly: vec![IntPoint2d::new(1, 1)] }] };
    assert!(c.execute_paths(ClipType::Union, &mut sol, PolyFillType::NonZero).is_ok());
    assert!(sol.paths.is_empty());
    assert_eq!(c.clip_type, ClipType::Union);
    assert_eq!(c.subj_fill_type, PolyFillType::NonZero);
    assert_eq!(c.clip_fill_type, PolyFillType::NonZero);
}

#[test]
fn execute_into_tree_empties_the_tree() {
    let mut c = ClipperBuilder::<ZFill>::new(options(false, true, true), None).build();
    let mut tree: PolyTree<IntPoint2d> = PolyTree::new();
    tree.all_nodes.push(node(vec![], false));
    assert!(c.execute_polytree(ClipType::Xor, &mut tree, PolyFillType::Positive).is_ok());
    assert_eq!(tree.total(), 0);
    assert!(tree.get_first().is_none());
    assert_eq!(c.clip_type, ClipType::Xor);
    assert_eq!(c.subj_fill_type, PolyFillType::Positive);
}

fn node(pts: Vec<(i64, i64)>, open: bool) -> PolyNode<IntPoint2d> {
    PolyNode {
        glob_index: PolyNodeIndex::new(0),
        index: 0,
        contour: Path { poly: pts.into_iter().map(|(x, y)| IntPoint2d::new(x, y)).collect() },
        parent: None,
        childs: Vec::new(),
        is_open: open,
        join_type: JoinType::Round,
        end_type: EndType::OpenButt,
    }
}

#[test]
fn closed_paths_skip_open_nodes() {
    let mut tree: PolyTree<IntPoint2d> = PolyTree::new();
    tree.all_nodes.push(node(vec![(0, 0), (1, 0), (1, 1)], false));
    tree.all_nodes.push(node(vec![(5, 5), (6, 6)], true));
    tree.all_nodes.push(node(vec![(2, 2), (3, 2), (3, 3), (2, 3)], false));
    let paths = Clipper::<ZFill>::closed_paths_from_polytree(&tree);
    assert_eq!(paths.paths.len(), 2);
    assert_eq!(paths.paths[0].poly, tree.all_nodes[0].contour.poly);
    assert_eq!(paths.paths[1].poly, tree.all_nodes[2].contour.poly);
    let empty: PolyTree<IntPoint2d> = PolyTree::new();
    assert!(Clipper::<ZFill>::closed_paths_from_polytree(&empty).paths.is_empty());
}

#[test]
fn own_fill_rule_decides_first() {
    let c = clipper_with(ClipType::Intersection, PolyFillType::EvenOdd, PolyFillType::EvenOdd);
    assert!(c.is_contributing(&edge(PolyType::Subject, 1, 5, 1)));
    assert!(!c.is_contributing(&edge(PolyType::Subject, 0, 2, 1)));
    assert!(c.is_contributing(&edge(PolyType::Subject, 0, 1, 1)));
    let c = clipper_with(ClipType::Intersection, PolyFillType::NonZero, PolyFillType::EvenOdd);
    assert!(c.is_contributing(&edge(PolyType::Subject, 1, -1, 1)));
    assert!(!c.is_contributing(&edge(PolyType::Subject, 1, 2, 1)));
    let c = clipper_with(ClipType::Intersection, PolyFillType::Positive, PolyFillType::EvenOdd);
    assert!(c.is_contributing(&edge(PolyType::Subject, 1, 1, 1)));
    assert!(!c.is_contributing(&edge(PolyType::Subject, 1, -1, 1)));
    let c = clipper_with(ClipType::Intersection, PolyFillType::Negative, PolyFillType::EvenOdd);
    assert!(c.is_contributing(&edge(PolyType::Subject, 1, -1, 1)));
    assert!(!c.is_contributing(&edge(PolyType::Subject, 1, 1, 1)));
    // a clip edge goes by the clip fill rule
    let c = clipper_with(ClipType::Intersection, PolyFillType::Positive, PolyFillType::Negative);
    assert!(c.is_contributing(&edge(PolyType::Clip, 1, -1, 1)));
    assert!(!c.is_contributing(&edge(PolyType::Clip, 1, 1, 1)));
}

#[test]
fn operation_decides_by_the_other_winding_count() {
    let ee = PolyFillType::EvenOdd;
    let inter = clipper_with(ClipType::Intersection, ee, ee);
    let union = clipper_with(ClipType::Union, ee, ee);
    let diff = clipper_with(ClipType::Difference, ee, ee);
    let xor = clipper_with(ClipType::Xor, ee, ee);
    for wc2 in [-2isize, -1, 0, 1, 2] {
        let s = edge(PolyType::Subject, 1, 1, wc2);
        let k = edge(PolyType::Clip, 1, 1, wc2);
        assert_eq!(inter.is_contributing(&s), wc2 != 0);
        assert_eq!(union.is_contributing(&s), wc2 == 0);
        // intersection and union split every edge that passes its own rule
        assert_ne!(inter.is_contributing(&s), union.is_contributing(&s));
        assert_eq!(diff.is_contributing(&s), wc2 == 0);
        assert_eq!(diff.is_contributing(&k), wc2 != 0);
        assert!(xor.is_contributing(&s));
        assert_eq!(xor.is_contributing(&edge(PolyType::Subject, 0, 1, wc2)), wc2 == 0);
    }
}

#[test]
fn positive_and_negative_rules_for_the_other_set() {
    let pos = clipper_with(ClipType::Intersection, PolyFillType::EvenOdd, PolyFillType::Positive);
    assert!(pos.is_contributing(&edge(PolyType::Subject, 1, 1, 1)));
    assert!(!pos.is_contributing(&edge(PolyType::Subject, 1, 1, -1)));
    let neg = clipper_with(ClipType::Union, PolyFillType::EvenOdd, PolyFillType::Negative);
    assert!(neg.is_contributing(&edge(PolyType::Subject, 1, 1, 0)));
    assert!(neg.is_contributing(&edge(PolyType::Subject, 1, 1, 3)));
    assert!(!neg.is_contributing(&edge(PolyType::Subject, 1, 1, -1)));
    let pos_union = clipper_with(ClipType::Union, PolyFillType::EvenOdd, PolyFillType::Positive);
    assert!(pos_union.is_contributing(&edge(PolyType::Subject, 1, 1, -4)));
    assert!(!pos_union.is_contributing(&edge(PolyType::Subject, 1, 1, 4)));
}
