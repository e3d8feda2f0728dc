use clipper::path::area_terms;
use clipper::{is_point_in_path, IntPoint, IntPoint2d, IntPoint3d, Path};

fn p(x: i64, y: i64) -> IntPoint2d {
    IntPoint2d::new(x, y)
}

fn path(pts: &[(i64, i64)]) -> Path<IntPoint2d> {
    Path { poly: pts.iter().map(|&(x, y)| p(x, y)).collect() }
}

#[test]
fn unit_square_counter_clockwise_has_positive_area() {
    let sq = path(&[(0, 0), (1, 0), (1, 1), (0, 1)]);
    assert_eq!(sq.try_double_area(), Some(2));
    assert!(sq.orientation());
}

#[test]
fn clockwise_square_has_negative_area() {
    let sq = path(&[(0, 1), (1, 1), (1, 0), (0, 0)]);
    assert_eq!(sq.try_double_area(), Some(-2));
    assert!(!sq.orientation());
}

#[test]
fn reversing_a_polygon_negates_its_area() {
    let pts = [(0, 0), (7, 1), (9, 6), (2, 8), (-3, 4)];
    let fwd = path(&pts);
    let mut rev_pts = pts.to_vec();
    rev_pts.reverse();
    let rev = path(&rev_pts);
    let a = fwd.try_double_area().unwrap();
    assert_ne!(a, 0);
    assert_eq!(rev.try_double_area(), Some(-a));
    assert_ne!(fwd.orientation(), rev.orientation());
}

#[test]
fn fewer_than_three_vertices_have_no_area() {
    assert_eq!(path(&[]).try_double_area(), Some(0));
    assert_eq!(path(&[(5, 5), (9, 1)]).try_double_area(), Some(0));
    assert!(path(&[(5, 5), (9, 1)]).orientation());
}

#[test]
fn area_that_leaves_the_coordinate_range_is_refused() {
    let big = path(&[(i64::MAX, 0), (i64::MAX, 10), (0, 10)]);
    assert_eq!(big.try_double_area(), None);
}

#[test]
fn triangle_area_exact() {
    // twice the area of the right triangle with legs 10 and 6
    let t = path(&[(0, 0), (10, 0), (0, 6)]);
    assert_eq!(t.try_double_area(), Some(60));
}

#[test]
fn point_inside_outside_and_on_square() {
    let sq = path(&[(0, 0), (4, 0), (4, 4), (0, 4)]);
    assert_eq!(is_point_in_path(&p(1, 1), &sq), 1);
    assert_eq!(is_point_in_path(&p(5, 5), &sq), 0);
    assert_eq!(is_point_in_path(&p(-1, 2), &sq), 0);
    assert_eq!(is_point_in_path(&p(2, 0), &sq), -1);
    assert_eq!(is_point_in_path(&p(0, 2), &sq), -1);
    assert_eq!(is_point_in_path(&p(4, 2), &sq), -1);
}

#[test]
fn every_vertex_is_on_the_boundary() {
    let poly = [(0, 0), (7, 1), (9, 6), (2, 8), (-3, 4)];
    let pth = path(&poly);
    for &(x, y) in poly.iter() {
        assert_eq!(is_point_in_path(&p(x, y), &pth), -1);
    }
}

#[test]
fn point_on_a_slanted_edge() {
    let t = path(&[(0, 0), (10, 0), (0, 10)]);
    assert_eq!(is_point_in_path(&p(3, 3), &t), 1);
    assert_eq!(is_point_in_path(&p(5, 5), &t), -1);
    assert_eq!(is_point_in_path(&p(6, 6), &t), 0);
    assert_eq!(is_point_in_path(&p(4, 5), &t), 1);
}

#[test]
fn degenerate_paths_hold_no_point() {
    assert_eq!(is_point_in_path(&p(0, 0), &path(&[(0, 0), (1, 1)])), 0);
    assert_eq!(is_point_in_path(&p(0, 0), &path(&[])), 0);
}

#[test]
fn point_in_polygon_with_full_range_coordinates() {
    let m = i64::MAX;
    let n = i64::MIN;
    let sq = path(&[(n, n), (m, n), (m, m), (n, m)]);
    assert_eq!(is_point_in_path(&p(0, 0), &sq), 1);
    let tri = path(&[(n, n), (m, n), (n, m)]);
    assert_eq!(is_point_in_path(&p(-1, -1), &tri), 1);
    assert_eq!(is_point_in_path(&p(0, 0), &tri), 0);
    let diag = path(&[(n + 1, n + 1), (m, n + 1), (m, m)]);
    assert_eq!(is_point_in_path(&p(0, 0), &diag), -1);
    assert_eq!(is_point_in_path(&p(1, 0), &diag), 1);
}

#[test]
fn point_in_polygon_with_large_coordinates() {
    let b: i64 = 1 << 40;
    let t = path(&[(0, 0), (b, 0), (0, b)]);
    assert_eq!(is_point_in_path(&p(b / 2, b / 2), &t), -1);
    assert_eq!(is_point_in_path(&p(b / 2, b / 2 - 1), &t), 1);
    assert_eq!(is_point_in_path(&p(b / 2, b / 2 + 1), &t), 0);
}

#[test]
fn points_with_z_are_classified_by_x_and_y() {
    let poly = Path {
        poly: vec![IntPoint3d { x: 0, y: 0, z: 1 }, IntPoint3d { x: 4, y: 0, z: 2 }, IntPoint3d { x: 0, y: 4, z: 3 }],
    };
    assert_eq!(is_point_in_path(&IntPoint3d { x: 1, y: 1, z: 99 }, &poly), 1);
}

#[test]
fn starting_at_another_vertex_changes_nothing() {
    let pts = vec![(0, 0), (7, 1), (9, 6), (2, 8), (-3, 4), (1, 3)];
    let base = path(&pts);
    let probes = [(2, 3), (0, 0), (8, 3), (-3, 4), (20, 1), (1, 3), (4, 1)];
    for r in 0..pts.len() {
        let mut rot = pts[r..].to_vec();
        rot.extend_from_slice(&pts[..r]);
        let rp = path(&rot);
        assert_eq!(rp.try_double_area(), base.try_double_area());
        for &(x, y) in probes.iter() {
            assert_eq!(is_point_in_path(&p(x, y), &rp), is_point_in_path(&p(x, y), &base));
        }
    }
}

#[test]
fn reversing_the_vertex_list_changes_no_classification() {
    let pts = vec![(0, 0), (7, 1), (9, 6), (2, 8), (-3, 4), (1, 3)];
    let mut rev_pts = pts.clone();
    rev_pts.reverse();
    let (fwd, rev) = (path(&pts), path(&rev_pts));
    for x in -4..11 {
        for y in -1..10 {
            assert_eq!(is_point_in_path(&p(x, y), &rev), is_point_in_path(&p(x, y), &fwd), "({}, {})", x, y);
        }
    }
}

#[test]
fn boundary_answer_means_a_point_on_an_edge() {
    let t = path(&[(0, 0), (6, 0), (0, 9)]);
    // on the slanted edge from (6, 0) to (0, 9)
    assert_eq!(is_point_in_path(&p(2, 6), &t), -1);
    assert_eq!(is_point_in_path(&p(4, 3), &t), -1);
    // on the line of that edge, beyond its ends
    assert_eq!(is_point_in_path(&p(8, -3), &t), 0);
    assert_eq!(is_point_in_path(&p(-2, 12), &t), 0);
}

#[test]
fn trapezoid_terms_of_a_vertex_list() {
    let sq = vec![p(0, 0), p(1, 0), p(1, 1), p(0, 1)];
    assert_eq!(area_terms(&sq), Some(vec![0, 0, -2, 0]));
    assert_eq!(area_terms(&Vec::<IntPoint2d>::new()), Some(vec![]));
    assert_eq!(area_terms(&vec![p(3, 4)]), Some(vec![0]));
    assert_eq!(area_terms(&vec![p(i64::MAX, 0), p(1, 2)]), None);
}
