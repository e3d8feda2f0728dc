use clipper::edge::{slopes_equal_edge2, slopes_equal_point3, slopes_equal_point4};
use clipper::{Edge, EdgeIndex, EdgeSide, IntPoint, IntPoint2d, PolyType};

fn p(x: i64, y: i64) -> IntPoint2d {
    IntPoint2d::new(x, y)
}

fn edge(bot: (i64, i64), top: (i64, i64)) -> Edge<IntPoint2d> {
    Edge {
        bot: p(bot.0, bot.1),
        cur: p(bot.0, bot.1),
        top: p(top.0, top.1),
        poly_typ: PolyType::Subject,
        side: EdgeSide::Left,
        winding_delta: 1,
        winding_count: 0,
        winding_count_2: 0,
        out_idx: -1,
        next: EdgeIndex::new(0),
        prev: EdgeIndex::new(0),
        next_in_lml: EdgeIndex::new(0),
        next_in_ael: EdgeIndex::new(0),
        prev_in_ael: EdgeIndex::new(0),
        next_in_sel: EdgeIndex::new(0),
        prev_in_sel: EdgeIndex::new(0),
    }
}

#[test]
fn three_points_on_a_line() {
    assert!(slopes_equal_point3(&p(0, 0), &p(2, 1), &p(6, 3)));
    assert!(!slopes_equal_point3(&p(0, 0), &p(2, 1), &p(6, 4)));
    assert!(slopes_equal_point3(&p(1, 1), &p(1, 1), &p(5, -3)));
}

#[test]
fn collinearity_does_not_depend_on_point_order() {
    let (a, b, c) = (p(-3, 7), p(1, -1), p(5, -9));
    assert!(slopes_equal_point3(&a, &b, &c));
    assert!(slopes_equal_point3(&b, &c, &a));
    assert!(slopes_equal_point3(&c, &b, &a));
    let d = p(5, -8);
    assert!(!slopes_equal_point3(&a, &b, &d));
    assert!(!slopes_equal_point3(&b, &d, &a));
    assert!(!slopes_equal_point3(&d, &b, &a));
}

#[test]
fn four_point_slopes() {
    assert!(slopes_equal_point4(&p(0, 0), &p(1, 2), &p(10, 10), &p(13, 16)));
    assert!(!slopes_equal_point4(&p(0, 0), &p(1, 2), &p(10, 10), &p(13, 15)));
    // the three-point test is the four-point test with a shared middle point
    let (a, b, c) = (p(0, 0), p(3, 4), p(9, 12));
    assert_eq!(slopes_equal_point4(&a, &b, &b, &c), slopes_equal_point3(&a, &b, &c));
}

#[test]
fn slopes_at_the_ends_of_the_range() {
    let (n, m) = (i64::MIN, i64::MAX);
    assert!(slopes_equal_point3(&p(n, n), &p(0, 0), &p(m, m)));
    assert!(!slopes_equal_point3(&p(n, n), &p(0, 0), &p(m, m - 1)));
    assert!(slopes_equal_point4(&p(n, m), &p(m, n), &p(0, 0), &p(-1, 1)));
}

#[test]
fn parallel_edges() {
    let e1 = edge((0, 0), (4, 8));
    let e2 = edge((10, 3), (11, 5));
    let e3 = edge((10, 3), (11, 6));
    assert!(slopes_equal_edge2(&e1, &e2));
    assert!(slopes_equal_edge2(&e2, &e1));
    assert!(!slopes_equal_edge2(&e1, &e3));
    assert!(!slopes_equal_edge2(&e3, &e1));
}

#[test]
fn swapping_sides_and_output_indices() {
    let mut e1 = edge((0, 0), (1, 1));
    let mut e2 = edge((5, 5), (6, 7));
    e2.side = EdgeSide::Right;
    e1.out_idx = 3;
    e2.out_idx = 8;
    e1.swap_sides(&mut e2);
    assert!(e1.side == EdgeSide::Right && e2.side == EdgeSide::Left);
    assert_eq!((e1.out_idx, e2.out_idx), (3, 8));
    e1.swap_poly_indices(&mut e2);
    assert_eq!((e1.out_idx, e2.out_idx), (8, 3));
    assert!(e1.side == EdgeSide::Right && e2.side == EdgeSide::Left);
    assert_eq!(e1.top, p(1, 1));
}

#[test]
fn x_of_an_edge_at_a_height() {
    let e = edge((2, 0), (8, 3));
    assert_eq!(e.top_x_at(3, 2), Some(8));
    assert_eq!(e.top_x_at(1, 2), Some(4));
    assert_eq!(e.top_x_at(-5, 3), Some(-13));
    assert_eq!(e.top_x_at(2, i64::MAX), None);
    assert_eq!(edge((i64::MAX, 0), (0, 5)).top_x_at(1, 1), None);
}
