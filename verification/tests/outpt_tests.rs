use clipper::consts::{IS_HOLE, IS_OPEN};
use clipper::outpt::{ring_length, ring_path};
use clipper::{
    is_point_in_out_pt, point_is_vertex, poly2_contains_poly1, IntPoint, IntPoint2d, OutPt, OutRec,
    PolyNodeIndex,
};

fn p(x: i64, y: i64) -> IntPoint2d {
    IntPoint2d::new(x, y)
}

/// Appends a closed ring of the given points to the arena and returns the
/// position of its first point.
fn add_ring(arena: &mut Vec<OutPt<IntPoint2d>>, pts: &[(i64, i64)]) -> usize {
    let base = arena.len();
    let n = pts.len();
    for (k, &(x, y)) in pts.iter().enumerate() {
        arena.push(OutPt {
            idx: base + k,
            pt: p(x, y),
            next: base + (k + 1) % n,
            prev: base + (k + n - 1) % n,
        });
    }
    base
}

#[test]
fn ring_is_collected_from_its_start() {
    let mut arena = Vec::new();
    add_ring(&mut arena, &[(9, 9)]);
    let r = add_ring(&mut arena, &[(0, 0), (4, 0), (4, 4), (0, 4)]);
    assert_eq!(ring_path(&arena, r + 2), vec![p(4, 4), p(0, 4), p(0, 0), p(4, 0)]);
    assert_eq!(ring_path(&arena, 0), vec![p(9, 9)]);
}

#[test]
fn vertices_of_a_ring() {
    let mut arena = Vec::new();
    let r = add_ring(&mut arena, &[(0, 0), (4, 0), (4, 4), (0, 4)]);
    assert!(point_is_vertex(&p(4, 4), &arena, r));
    assert!(point_is_vertex(&p(0, 0), &arena, r + 3));
    assert!(!point_is_vertex(&p(2, 2), &arena, r));
    assert!(!point_is_vertex(&p(4, 5), &arena, r));
}

#[test]
fn point_in_a_ring() {
    let mut arena = Vec::new();
    let r = add_ring(&mut arena, &[(0, 0), (4, 0), (4, 4), (0, 4)]);
    assert_eq!(is_point_in_out_pt(&p(1, 3), &arena, r), 1);
    assert_eq!(is_point_in_out_pt(&p(1, 3), &arena, r + 1), 1);
    assert_eq!(is_point_in_out_pt(&p(7, 3), &arena, r), 0);
    assert_eq!(is_point_in_out_pt(&p(4, 3), &arena, r), -1);
    // a vertex is on the boundary
    assert!(point_is_vertex(&p(0, 4), &arena, r));
    assert_eq!(is_point_in_out_pt(&p(0, 4), &arena, r), -1);
}

#[test]
fn containment_of_rings() {
    let mut arena = Vec::new();
    let outer = add_ring(&mut arena, &[(0, 0), (10, 0), (10, 10), (0, 10)]);
    let inner = add_ring(&mut arena, &[(2, 2), (5, 2), (5, 5), (2, 5)]);
    let apart = add_ring(&mut arena, &[(20, 20), (30, 20), (30, 30)]);
    assert!(poly2_contains_poly1(&arena, inner, outer));
    assert!(!poly2_contains_poly1(&arena, outer, inner));
    assert!(!poly2_contains_poly1(&arena, apart, outer));
    // every vertex on the boundary: contained
    assert!(poly2_contains_poly1(&arena, outer, outer));
    // the first vertex off the boundary decides
    let touching = add_ring(&mut arena, &[(0, 0), (10, 0), (5, 5)]);
    assert!(poly2_contains_poly1(&arena, touching, outer));
    let leaving = add_ring(&mut arena, &[(0, 0), (10, 0), (5, -5)]);
    assert!(!poly2_contains_poly1(&arena, leaving, outer));
}

#[test]
fn reversing_a_ring_turns_its_links_and_twice_restores_them() {
    let mut arena = Vec::new();
    let other = add_ring(&mut arena, &[(50, 50), (60, 50), (60, 60)]);
    let r = add_ring(&mut arena, &[(0, 0), (4, 0), (4, 4), (0, 4)]);
    let links = |a: &Vec<OutPt<IntPoint2d>>| a.iter().map(|o| (o.idx, o.pt, o.next, o.prev)).collect::<Vec<_>>();
    let before = links(&arena);
    OutPt::reverse_poly_pt_list(&mut arena, r + 1);
    let mid = links(&arena);
    for i in 0..arena.len() {
        if i >= r {
            assert_eq!((mid[i].2, mid[i].3), (before[i].3, before[i].2));
        } else {
            assert_eq!(mid[i], before[i]);
        }
    }
    assert_eq!(ring_path(&arena, r), vec![p(0, 0), p(0, 4), p(4, 4), p(4, 0)]);
    assert_eq!(ring_path(&arena, other), vec![p(50, 50), p(60, 50), p(60, 60)]);
    OutPt::reverse_poly_pt_list(&mut arena, r + 1);
    assert_eq!(links(&arena), before);
}

#[test]
fn out_rec_flags() {
    let mut rec = OutRec {
        idx: 0,
        is_hole_open: 0,
        first_left: 0,
        poly_node: PolyNodeIndex::new(0),
        pts: 0,
        bottom_pt: 0,
    };
    assert!(rec.is_hole());
    assert!(rec.is_open());
    rec.is_hole_open = IS_HOLE;
    assert!(!rec.is_hole());
    assert!(rec.is_open());
    rec.is_hole_open = IS_OPEN;
    assert!(rec.is_hole());
    assert!(!rec.is_open());
    rec.is_hole_open = IS_HOLE | IS_OPEN;
    assert!(!rec.is_hole());
    assert!(!rec.is_open());
}

#[test]
fn ring_length_checks_the_links() {
    let mut arena = Vec::new();
    let a = add_ring(&mut arena, &[(0, 0), (4, 0), (4, 4), (0, 4)]);
    let b = add_ring(&mut arena, &[(7, 7)]);
    assert_eq!(ring_length(&arena, a), Some(4));
    assert_eq!(ring_length(&arena, a + 2), Some(4));
    assert_eq!(ring_length(&arena, b), Some(1));
    assert_eq!(ring_length(&arena, 99), None);
    // a tail that runs into a cycle without coming back
    arena.push(OutPt { idx: 5, pt: p(1, 1), next: a, prev: a });
    assert_eq!(ring_length(&arena, 5), None);
    // a link out of the arena
    arena.push(OutPt { idx: 6, pt: p(1, 1), next: 40, prev: 6 });
    assert_eq!(ring_length(&arena, a), None);
}
