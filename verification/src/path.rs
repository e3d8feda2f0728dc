//! Polygons as vertex lists: signed area, orientation and the point-in-polygon
//! test.
use vstd::prelude::*;

use crate::int128::cross_sign;
use crate::point::{CInt, IntPoint};

verus! {

/// A closed polygon given by its vertices in order.
pub struct Path<T: IntPoint> {
    pub poly: Vec<T>,
}

/// A list of polygons.
pub struct Paths<T: IntPoint> {
    pub paths: Vec<Path<T>>,
}

/// Whether an integer lies in the range of `CInt`.
pub open spec fn fits_cint(v: int) -> bool {
    i64::MIN <= v <= i64::MAX
}

/// The vertex before vertex `i`, the last one before the first.
pub open spec fn prev_index(n: int, i: int) -> int {
    if i == 0 {
        n - 1
    } else {
        i - 1
    }
}

/// The vertex after vertex `i`, the first one after the last.
pub open spec fn next_index(n: int, i: int) -> int {
    if i + 1 == n {
        0
    } else {
        i + 1
    }
}

/// The contribution of the edge that ends at vertex `i` to the negated
/// doubled area (the trapezoid formula).
pub open spec fn area_term<T: IntPoint>(poly: Seq<T>, i: int) -> int {
    let j = prev_index(poly.len() as int, i);
    (poly[j].x_coord() + poly[i].x_coord()) * (poly[j].y_coord() - poly[i].y_coord())
}

/// The sum of the first `k` trapezoid terms.
pub open spec fn area_sum<T: IntPoint>(poly: Seq<T>, k: int) -> int
    decreases k,
{
    if k <= 0 {
        0
    } else {
        area_sum(poly, k - 1) + area_term(poly, k - 1)
    }
}

/// Twice the signed area of a polygon: positive for a counter-clockwise
/// polygon in a y-up frame, zero for fewer than three vertices.
pub open spec fn double_area<T: IntPoint>(poly: Seq<T>) -> int {
    if poly.len() < 3 {
        0
    } else {
        -area_sum(poly, poly.len() as int)
    }
}

/// Whether the trapezoid term of vertex `i` and its factors stay in `CInt`.
pub open spec fn area_term_fits<T: IntPoint>(poly: Seq<T>, i: int) -> bool {
    let j = prev_index(poly.len() as int, i);
    &&& fits_cint(poly[j].x_coord() + poly[i].x_coord())
    &&& fits_cint(poly[j].y_coord() - poly[i].y_coord())
    &&& fits_cint(area_term(poly, i))
}

/// Whether the area of a polygon can be accumulated in `CInt`: every factor,
/// term and partial sum, and the negated total, stay in range.
pub open spec fn area_fits<T: IntPoint>(poly: Seq<T>) -> bool {
    poly.len() < 3 || {
        &&& forall|i: int| 0 <= i < poly.len() ==> #[trigger] area_term_fits(poly, i)
        &&& forall|k: int| 0 <= k <= poly.len() ==> fits_cint(#[trigger] area_sum(poly, k))
        &&& fits_cint(double_area(poly))
    }
}

/// The trapezoid terms of a closed vertex list, one per vertex (the term of
/// vertex `i` pairs it with the vertex before it), or `None` where a term
/// leaves `CInt`.
pub fn area_terms<T: IntPoint>(poly: &Vec<T>) -> (res: Option<Vec<CInt>>)
    ensures
        res is Some <==> forall|i: int| 0 <= i < poly@.len() ==> #[trigger] area_term_fits(poly@, i),
        res matches Some(v) ==> v@.len() == poly@.len() && forall|i: int|
            0 <= i < poly@.len() ==> v@[i] == #[trigger] area_term(poly@, i),
{
    let size = poly.len();
    let mut terms: Vec<CInt> = Vec::new();
    if size == 0 {
        return Some(terms);
    }
    let mut j: usize = size - 1;
    let mut i: usize = 0;
    while i < size
        invariant
            size == poly@.len(),
            size >= 1,
            i <= size,
            j == prev_index(size as int, i as int),
            terms@.len() == i,
            forall|k: int| 0 <= k < i ==> #[trigger] area_term_fits(poly@, k),
            forall|k: int| 0 <= k < i ==> terms@[k] == #[trigger] area_term(poly@, k),
        decreases size - i,
    {
        let pj = poly[j];
        let pi = poly[i];
        let sx = match pj.get_x().checked_add(pi.get_x()) {
            Some(v) => v,
            None => {
                assert(!area_term_fits(poly@, i as int));
                return None;
            },
        };
        let dy = match pj.get_y().checked_sub(pi.get_y()) {
            Some(v) => v,
            None => {
                assert(!area_term_fits(poly@, i as int));
                return None;
            },
        };
        let term = match sx.checked_mul(dy) {
            Some(v) => v,
            None => {
                assert(!area_term_fits(poly@, i as int));
                return None;
            },
        };
        assert(area_term_fits(poly@, i as int));
        terms.push(term);
        j = i;
        i = i + 1;
    }
    Some(terms)
}

impl<T: IntPoint> Path<T> {
    /// Twice the signed area, or `None` where it cannot be accumulated in
    /// `CInt`.
    pub fn try_double_area(&self) -> (res: Option<CInt>)
        ensures
            res is Some <==> area_fits(self.poly@),
            res matches Some(v) ==> v == double_area(self.poly@),
    {
        let size = self.poly.len();
        if size < 3 {
            return Some(0);
        }
        let ghost poly = self.poly@;
        let mut a: CInt = 0;
        let mut j: usize = size - 1;
        let mut i: usize = 0;
        while i < size
            invariant
                poly == self.poly@,
                size == poly.len(),
                size >= 3,
                i <= size,
                j == prev_index(size as int, i as int),
                a == area_sum(poly, i as int),
                forall|k: int| 0 <= k < i ==> #[trigger] area_term_fits(poly, k),
                forall|k: int| 0 <= k <= i ==> fits_cint(#[trigger] area_sum(poly, k)),
            decreases size - i,
        {
            let pj = self.poly[j];
            let pi = self.poly[i];
            let xj = pj.get_x();
            let xi = pi.get_x();
            let yj = pj.get_y();
            let yi = pi.get_y();
            let sx = match xj.checked_add(xi) {
                Some(v) => v,
                None => {
                    assert(!area_term_fits(poly, i as int));
                    return None;
                },
            };
            let dy = match yj.checked_sub(yi) {
                Some(v) => v,
                None => {
                    assert(!area_term_fits(poly, i as int));
                    return None;
                },
            };
            let term = match sx.checked_mul(dy) {
                Some(v) => v,
                None => {
                    assert(!area_term_fits(poly, i as int));
                    return None;
                },
            };
            assert(area_term_fits(poly, i as int));
            a = match a.checked_add(term) {
                Some(v) => v,
                None => {
                    assert(!fits_cint(area_sum(poly, i + 1)));
                    return None;
                },
            };
            j = i;
            i = i + 1;
        }
        if a == CInt::MIN {
            None
        } else {
            Some(-a)
        }
    }

    /// Whether the polygon winds counter-clockwise (in a y-up frame), that is
    /// whether its signed area is not negative.
    pub fn orientation(&self) -> (res: bool)
        requires
            area_fits(self.poly@),
        ensures
            res == (double_area(self.poly@) >= 0),
    {
        match self.try_double_area() {
            Some(v) => v >= 0,
            None => true,
        }
    }
}

proof fn lemma_reverse_term<T: IntPoint>(poly: Seq<T>, k: int)
    requires
        poly.len() >= 1,
        0 <= k < poly.len(),
    ensures
        area_term(poly.reverse(), k) == -area_term(
            poly,
            if k == 0 {
                0
            } else {
                poly.len() - k
            },
        ),
{
    let n = poly.len() as int;
    let r = poly.reverse();
    let i = if k == 0 {
        0
    } else {
        n - k
    };
    let jr = prev_index(n, k);
    let j = prev_index(n, i);
    assert(r[k] == poly[n - 1 - k]);
    assert(r[jr] == poly[n - 1 - jr]);
    if k == 0 {
        assert(n - 1 - jr == 0);
        assert(n - 1 - k == j);
    } else {
        assert(n - 1 - jr == i);
        assert(n - 1 - k == j);
    }
    let (a, b) = (poly[j].x_coord() as int, poly[i].x_coord() as int);
    let (c, d) = (poly[j].y_coord() as int, poly[i].y_coord() as int);
    assert((b + a) * (d - c) == -((a + b) * (c - d))) by (nonlinear_arith);
}

proof fn lemma_reverse_partial_sum<T: IntPoint>(poly: Seq<T>, k: int)
    requires
        poly.len() >= 1,
        1 <= k <= poly.len(),
    ensures
        area_sum(poly.reverse(), k) == -(area_term(poly, 0) + area_sum(poly, poly.len() as int)
            - area_sum(poly, poly.len() - k + 1)),
    decreases k,
{
    let n = poly.len() as int;
    if k == 1 {
        lemma_reverse_term(poly, 0);
        assert(area_sum(poly.reverse(), 1) == area_sum(poly.reverse(), 0) + area_term(
            poly.reverse(),
            0,
        ));
    } else {
        lemma_reverse_partial_sum(poly, k - 1);
        lemma_reverse_term(poly, k - 1);
        assert(area_sum(poly, n - k + 2) == area_sum(poly, n - k + 1) + area_term(poly, n - k + 1));
    }
}

/// Reversing the order of the vertices negates the signed area, so a
/// polygon of non-zero area changes its orientation.
pub proof fn lemma_reverse_negates_area<T: IntPoint>(poly: Seq<T>)
    ensures
        double_area(poly.reverse()) == -double_area(poly),
{
    let n = poly.len() as int;
    if n >= 3 {
        lemma_reverse_partial_sum(poly, n);
        assert(area_sum(poly, 1) == area_sum(poly, 0) + area_term(poly, 0));
    }
}

/// Twice the signed area of the triangle `pt, ip, np`, the cross product of
/// `ip - pt` and `np - pt`.
pub open spec fn cross_at<T: IntPoint>(pt: T, ip: T, np: T) -> int {
    (ip.x_coord() - pt.x_coord()) * (np.y_coord() - pt.y_coord()) - (np.x_coord() - pt.x_coord()) * (
    ip.y_coord() - pt.y_coord())
}

/// The edge from `ip` to `np` reaches from one side of the horizontal line
/// through `pt` to the other (a vertex on the line counts as above it).
pub open spec fn straddles<T: IntPoint>(pt: T, ip: T, np: T) -> bool {
    (ip.y_coord() < pt.y_coord()) != (np.y_coord() < pt.y_coord())
}

/// Whether the edge needs the cross product to decide: it straddles the line
/// through `pt` with one end left of `pt` and the other not left of it.
pub open spec fn needs_cross<T: IntPoint>(pt: T, ip: T, np: T) -> bool {
    &&& straddles(pt, ip, np)
    &&& !(ip.x_coord() >= pt.x_coord() && np.x_coord() > pt.x_coord())
    &&& (ip.x_coord() >= pt.x_coord() || np.x_coord() > pt.x_coord())
}

/// The edge from `ip` to `np` is found to hold `pt`: `pt` is its end point,
/// or `pt` lies on it.
pub open spec fn touches_edge<T: IntPoint>(pt: T, ip: T, np: T) -> bool {
    ||| np.y_coord() == pt.y_coord() && (np.x_coord() == pt.x_coord() || (ip.y_coord()
        == pt.y_coord() && ((np.x_coord() > pt.x_coord()) == (ip.x_coord() < pt.x_coord()))))
    ||| needs_cross(pt, ip, np) && cross_at(pt, ip, np) == 0
}

/// The edge from `ip` to `np` crosses the horizontal ray from `pt` to the
/// right.
pub open spec fn crosses_ray<T: IntPoint>(pt: T, ip: T, np: T) -> bool {
    &&& straddles(pt, ip, np)
    &&& {
        ||| ip.x_coord() >= pt.x_coord() && np.x_coord() > pt.x_coord()
        ||| needs_cross(pt, ip, np) && (cross_at(pt, ip, np) > 0) == (np.y_coord()
            > ip.y_coord())
    }
}

/// The edge of `poly` that starts at vertex `i`.
pub open spec fn edge_touches<T: IntPoint>(pt: T, poly: Seq<T>, i: int) -> bool {
    touches_edge(pt, poly[i], poly[next_index(poly.len() as int, i)])
}

pub open spec fn edge_crosses<T: IntPoint>(pt: T, poly: Seq<T>, i: int) -> bool {
    crosses_ray(pt, poly[i], poly[next_index(poly.len() as int, i)])
}

/// How many of the first `k` edges cross the ray from `pt`.
pub open spec fn crossing_count<T: IntPoint>(pt: T, poly: Seq<T>, k: int) -> int
    decreases k,
{
    if k <= 0 {
        0
    } else {
        crossing_count(pt, poly, k - 1) + if edge_crosses(pt, poly, k - 1) {
            1int
        } else {
            0int
        }
    }
}

/// The point-in-polygon classification of Hormann and Agathos: -1 when `pt`
/// is on the boundary, 1 when the ray from `pt` crosses the boundary an odd
/// number of times, 0 otherwise; 0 for fewer than three vertices.
pub open spec fn point_in_polygon<T: IntPoint>(pt: T, poly: Seq<T>) -> i8 {
    if poly.len() < 3 {
        0i8
    } else if exists|i: int| 0 <= i < poly.len() && #[trigger] edge_touches(pt, poly, i) {
        -1i8
    } else if crossing_count(pt, poly, poly.len() as int) % 2 == 1 {
        1i8
    } else {
        0i8
    }
}

/// Classifies `pt` against the polygon `path`.
///
/// Returns 0 if `pt` is outside, +1 if it is inside, -1 if it lies on the
/// boundary.
pub fn is_point_in_path<T: IntPoint>(pt: &T, path: &Path<T>) -> (res: i8)
    ensures
        res == point_in_polygon(*pt, path.poly@),
{
    let n = path.poly.len();
    if n < 3 {
        return 0;
    }
    let ghost poly = path.poly@;
    let mut result: i8 = 0;
    let pt_y = pt.get_y();
    let pt_x = pt.get_x();
    let mut i: usize = 0;
    while i < n
        invariant
            poly == path.poly@,
            n == poly.len(),
            n >= 3,
            i <= n,
            pt_x == pt.x_coord(),
            pt_y == pt.y_coord(),
            forall|k: int| 0 <= k < i ==> !#[trigger] edge_touches(*pt, poly, k),
            result == crossing_count(*pt, poly, i as int) % 2,
        decreases n - i,
    {
        let ip = path.poly[i];
        let np = if i + 1 == n {
            path.poly[0]
        } else {
            path.poly[i + 1]
        };
        assert(np == poly[next_index(n as int, i as int)]);
        let ip_x = ip.get_x();
        let ip_y = ip.get_y();
        let np_x = np.get_x();
        let np_y = np.get_y();
        if np_y == pt_y && (np_x == pt_x || ip_y == np_y && ((np_x > pt_x) == (ip_x < pt_x))) {
            assert(edge_touches(*pt, poly, i as int));
            return -1;
        }
        if (ip_y < pt_y) != (np_y < pt_y) {
            let cond1 = ip_x >= pt_x;
            if cond1 && (np_x > pt_x) {
                result = 1 - result;
            } else if cond1 || (np_x > pt_x) {
                let d = cross_sign(
                    ip_x as i128 - pt_x as i128,
                    np_y as i128 - pt_y as i128,
                    np_x as i128 - pt_x as i128,
                    ip_y as i128 - pt_y as i128,
                );
                if d == 0 {
                    assert(edge_touches(*pt, poly, i as int));
                    return -1;
                }
                if (d > 0) == (np_y > ip_y) {
                    result = 1 - result;
                }
            }
        }
        assert(!edge_touches(*pt, poly, i as int));
        i = i + 1;
    }
    result
}

/// A vertex of a polygon lies on its boundary.
pub proof fn lemma_vertex_on_boundary<T: IntPoint>(pt: T, poly: Seq<T>, j: int)
    requires
        poly.len() >= 3,
        0 <= j < poly.len(),
        poly[j].x_coord() == pt.x_coord(),
        poly[j].y_coord() == pt.y_coord(),
    ensures
        point_in_polygon(pt, poly) == -1,
{
    let i = prev_index(poly.len() as int, j);
    assert(next_index(poly.len() as int, i) == j);
    assert(edge_touches(pt, poly, i));
}

/// The sum `f(0) + ... + f(k - 1)`.
pub open spec fn sum_of(f: spec_fn(int) -> int, k: int) -> int
    decreases k,
{
    if k <= 0 {
        0
    } else {
        sum_of(f, k - 1) + f(k - 1)
    }
}

proof fn lemma_sum_ext(f: spec_fn(int) -> int, g: spec_fn(int) -> int, k: int)
    requires
        forall|i: int| 0 <= i < k ==> #[trigger] f(i) == g(i),
    ensures
        sum_of(f, k) == sum_of(g, k),
    decreases k,
{
    if k > 0 {
        lemma_sum_ext(f, g, k - 1);
    }
}

proof fn lemma_sum_split(f: spec_fn(int) -> int, a: int, b: int)
    requires
        0 <= a,
        0 <= b,
    ensures
        sum_of(f, a + b) == sum_of(f, a) + sum_of(|i: int| f(i + a), b),
    decreases b,
{
    if b > 0 {
        lemma_sum_split(f, a, b - 1);
        assert((|i: int| f(i + a))(b - 1) == f(b - 1 + a));
    }
}

/// The position in a list of `n` vertices that rotating it by `r` moves to
/// position `i`.
pub open spec fn rot_index(n: int, r: int, i: int) -> int {
    if i + r < n {
        i + r
    } else {
        i + r - n
    }
}

/// The vertex list that starts at vertex `r` of `poly` and wraps around.
pub open spec fn rotate<T>(poly: Seq<T>, r: int) -> Seq<T> {
    poly.subrange(r, poly.len() as int) + poly.subrange(0, r)
}

proof fn lemma_sum_rotate(f: spec_fn(int) -> int, n: int, r: int)
    requires
        0 <= r < n,
    ensures
        sum_of(|i: int| f(rot_index(n, r, i)), n) == sum_of(f, n),
{
    let g = |i: int| f(rot_index(n, r, i));
    lemma_sum_split(g, n - r, r);
    lemma_sum_split(f, r, n - r);
    lemma_sum_ext(|i: int| g(i + (n - r)), f, r);
    lemma_sum_ext(g, |i: int| f(i + r), n - r);
    assert(n - r + r == n);
    assert(r + (n - r) == n);
}

proof fn lemma_rotate_index<T: IntPoint>(poly: Seq<T>, r: int, i: int)
    requires
        0 <= r < poly.len(),
        0 <= i < poly.len(),
    ensures
        rotate(poly, r).len() == poly.len(),
        rotate(poly, r)[i] == poly[rot_index(poly.len() as int, r, i)],
        0 <= rot_index(poly.len() as int, r, i) < poly.len(),
        next_index(poly.len() as int, rot_index(poly.len() as int, r, i)) == rot_index(
            poly.len() as int,
            r,
            next_index(poly.len() as int, i),
        ),
        prev_index(poly.len() as int, rot_index(poly.len() as int, r, i)) == rot_index(
            poly.len() as int,
            r,
            prev_index(poly.len() as int, i),
        ),
{
    let n = poly.len() as int;
    let rot = rotate(poly, r);
    if i < n - r {
        assert(rot[i] == poly.subrange(r, n)[i]);
    } else {
        assert(rot[i] == poly.subrange(0, r)[i - (n - r)]);
    }
}

proof fn lemma_rotate_edges<T: IntPoint>(pt: T, poly: Seq<T>, r: int, i: int)
    requires
        0 <= r < poly.len(),
        0 <= i < poly.len(),
    ensures
        area_term(rotate(poly, r), i) == area_term(poly, rot_index(poly.len() as int, r, i)),
        edge_touches(pt, rotate(poly, r), i) == edge_touches(
            pt,
            poly,
            rot_index(poly.len() as int, r, i),
        ),
        edge_crosses(pt, rotate(poly, r), i) == edge_crosses(
            pt,
            poly,
            rot_index(poly.len() as int, r, i),
        ),
{
    let n = poly.len() as int;
    lemma_rotate_index(poly, r, i);
    lemma_rotate_index(poly, r, next_index(n, i));
    lemma_rotate_index(poly, r, prev_index(n, i));
}

proof fn lemma_area_sum_is_sum<T: IntPoint>(poly: Seq<T>, k: int)
    ensures
        area_sum(poly, k) == sum_of(|i: int| area_term(poly, i), k),
    decreases k,
{
    if k > 0 {
        lemma_area_sum_is_sum(poly, k - 1);
    }
}

proof fn lemma_crossing_count_is_sum<T: IntPoint>(pt: T, poly: Seq<T>, k: int)
    ensures
        crossing_count(pt, poly, k) == sum_of(
            |i: int|
                if edge_crosses(pt, poly, i) {
                    1int
                } else {
                    0int
                },
            k,
        ),
    decreases k,
{
    if k > 0 {
        lemma_crossing_count_is_sum(pt, poly, k - 1);
    }
}

/// Starting a polygon at another vertex does not change its area.
pub proof fn lemma_rotate_keeps_area<T: IntPoint>(poly: Seq<T>, r: int)
    requires
        0 <= r < poly.len(),
    ensures
        double_area(rotate(poly, r)) == double_area(poly),
{
    let n = poly.len() as int;
    let rot = rotate(poly, r);
    assert(rot.len() == n);
    let f = |i: int| area_term(poly, i);
    lemma_area_sum_is_sum(poly, n);
    lemma_area_sum_is_sum(rot, n);
    let g = |i: int| area_term(rot, i);
    let h = |i: int| f(rot_index(n, r, i));
    assert forall|i: int| 0 <= i < n implies #[trigger] g(i) == h(i) by {
        lemma_rotate_edges(poly[0], poly, r, i);
    }
    lemma_sum_ext(g, h, n);
    lemma_sum_rotate(f, n, r);
}

/// Starting a polygon at another vertex does not change where a point lies
/// with respect to it.
pub proof fn lemma_rotate_keeps_point_in_polygon<T: IntPoint>(pt: T, poly: Seq<T>, r: int)
    requires
        0 <= r < poly.len(),
    ensures
        point_in_polygon(pt, rotate(poly, r)) == point_in_polygon(pt, poly),
{
    let n = poly.len() as int;
    let rot = rotate(poly, r);
    assert(rot.len() == n);
    assert forall|i: int| 0 <= i < n implies #[trigger] edge_touches(pt, rot, i) == edge_touches(
        pt,
        poly,
        rot_index(n, r, i),
    ) by {
        lemma_rotate_edges(pt, poly, r, i);
    }
    if exists|j: int| 0 <= j < n && #[trigger] edge_touches(pt, poly, j) {
        let j = choose|j: int| 0 <= j < n && #[trigger] edge_touches(pt, poly, j);
        let i = if j >= r {
            j - r
        } else {
            j + n - r
        };
        assert(rot_index(n, r, i) == j);
        assert(edge_touches(pt, rot, i));
    }
    let f = |i: int|
        if edge_crosses(pt, poly, i) {
            1int
        } else {
            0int
        };
    let fr = |i: int|
        if edge_crosses(pt, rot, i) {
            1int
        } else {
            0int
        };
    lemma_crossing_count_is_sum(pt, poly, n);
    lemma_crossing_count_is_sum(pt, rot, n);
    let h = |i: int| f(rot_index(n, r, i));
    assert forall|i: int| 0 <= i < n implies #[trigger] fr(i) == h(i) by {
        lemma_rotate_edges(pt, poly, r, i);
    }
    lemma_sum_ext(fr, h, n);
    lemma_sum_rotate(f, n, r);
}

/// `pt` lies on the closed segment from `a` to `b`: it is on their line and
/// not beyond either end.
pub open spec fn on_segment<T: IntPoint>(pt: T, a: T, b: T) -> bool {
    &&& cross_at(pt, a, b) == 0
    &&& (a.x_coord() - pt.x_coord()) * (b.x_coord() - pt.x_coord()) + (a.y_coord() - pt.y_coord()) * (
    b.y_coord() - pt.y_coord()) <= 0
}

/// The edge from `a` to `b` meets the horizontal ray from `pt` to the right,
/// read without regard to the edge's direction: its crossing with the line
/// through `pt` lies right of `pt`.
pub open spec fn ray_hit<T: IntPoint>(pt: T, a: T, b: T) -> bool {
    straddles(pt, a, b) && (cross_at(pt, a, b) > 0) == (b.y_coord() > a.y_coord())
}

/// `pt` lies on some edge of `poly`.
pub open spec fn on_boundary<T: IntPoint>(pt: T, poly: Seq<T>) -> bool {
    exists|i: int|
        0 <= i < poly.len() && #[trigger] on_segment(
            pt,
            poly[i],
            poly[next_index(poly.len() as int, i)],
        )
}

proof fn lemma_touch_arith(xa: int, ya: int, xb: int, yb: int)
    ensures
        // the end point is the point
        xb == 0 && yb == 0 ==> xa * yb - xb * ya == 0 && xa * xb + ya * yb <= 0,
        // a horizontal edge through the point with the point between its ends
        yb == 0 && ya == 0 && (xb > 0) == (xa < 0) ==> xa * yb - xb * ya == 0 && xa * xb + ya
            * yb <= 0,
        // a straddling edge on the point's line
        (ya < 0) != (yb < 0) && xa * yb - xb * ya == 0 ==> xa * xb + ya * yb <= 0,
{
    assert(xb == 0 && yb == 0 ==> xa * yb - xb * ya == 0 && xa * xb + ya * yb <= 0)
        by (nonlinear_arith);
    assert(yb == 0 && ya == 0 && (xb > 0) == (xa < 0) ==> xa * yb - xb * ya == 0 && xa * xb + ya
        * yb <= 0) by (nonlinear_arith);
    if (ya < 0) != (yb < 0) && xa * yb - xb * ya == 0 {
        assert(ya * yb <= 0) by (nonlinear_arith)
            requires
                (ya < 0) != (yb < 0),
        ;
        if yb == 0 {
            assert(xb * ya == 0) by (nonlinear_arith)
                requires
                    xa * yb - xb * ya == 0,
                    yb == 0,
            ;
            assert(xb == 0) by (nonlinear_arith)
                requires
                    xb * ya == 0,
                    ya < 0,
            ;
            assert(xa * xb == 0) by (nonlinear_arith)
                requires
                    xb == 0,
            ;
        } else if ya == 0 {
            assert(xa * yb == 0) by (nonlinear_arith)
                requires
                    xa * yb - xb * ya == 0,
                    ya == 0,
            ;
            assert(xa == 0) by (nonlinear_arith)
                requires
                    xa * yb == 0,
                    yb < 0,
            ;
            assert(xa * xb == 0) by (nonlinear_arith)
                requires
                    xa == 0,
            ;
        } else {
            assert(xa * xb * (ya * yb) == (xb * ya) * (xb * ya)) by (nonlinear_arith)
                requires
                    xa * yb == xb * ya,
            ;
            assert(ya * yb < 0) by (nonlinear_arith)
                requires
                    (ya < 0) != (yb < 0),
                    ya != 0,
                    yb != 0,
            ;
            assert(xa * xb <= 0) by (nonlinear_arith)
                requires
                    xa * xb * (ya * yb) == (xb * ya) * (xb * ya),
                    ya * yb < 0,
            ;
        }
    }
}

/// What the edge tests of the classification find is a point on the edge.
proof fn lemma_touch_on_segment<T: IntPoint>(pt: T, a: T, b: T)
    ensures
        touches_edge(pt, a, b) ==> on_segment(pt, a, b),
        straddles(pt, a, b) && cross_at(pt, a, b) == 0 ==> on_segment(pt, a, b),
{
    lemma_touch_arith(
        a.x_coord() - pt.x_coord(),
        a.y_coord() - pt.y_coord(),
        b.x_coord() - pt.x_coord(),
        b.y_coord() - pt.y_coord(),
    );
}

proof fn lemma_segment_arith(xa: int, ya: int, xb: int, yb: int)
    requires
        xa * yb - xb * ya == 0,
        xa * xb + ya * yb <= 0,
        !(xa == 0 && ya == 0),
        !(xb == 0 && yb == 0),
        !(ya == 0 && yb == 0),
    ensures
        (ya < 0 && yb > 0) || (ya > 0 && yb < 0),
        (xa < 0 && xb > 0) || (xa > 0 && xb < 0) || (xa == 0 && xb == 0),
{
    if ya == 0 {
        assert(xa * yb == 0);
        assert(xa == 0) by (nonlinear_arith)
            requires
                xa * yb == 0,
                yb != 0,
        ;
    }
    if yb == 0 {
        assert(xb * ya == 0);
        assert(xb == 0) by (nonlinear_arith)
            requires
                xb * ya == 0,
                ya != 0,
        ;
    }
    assert(xa * xb * (ya * yb) == (xb * ya) * (xb * ya)) by (nonlinear_arith)
        requires
            xa * yb == xb * ya,
    ;
    assert((xb * ya) * (xb * ya) >= 0) by (nonlinear_arith);
    if ya * yb > 0 {
        assert(xa * xb < 0);
        assert(false) by (nonlinear_arith)
            requires
                xa * xb < 0,
                ya * yb > 0,
                xa * xb * (ya * yb) >= 0,
        ;
    }
    assert((ya < 0 && yb > 0) || (ya > 0 && yb < 0)) by (nonlinear_arith)
        requires
            ya * yb <= 0,
            ya != 0,
            yb != 0,
    ;
    assert(ya * yb < 0) by (nonlinear_arith)
        requires
            (ya < 0 && yb > 0) || (ya > 0 && yb < 0),
    ;
    assert(xa * xb <= 0) by (nonlinear_arith)
        requires
            xa * xb * (ya * yb) >= 0,
            ya * yb < 0,
    ;
    if xa == 0 {
        assert(xb * ya == 0);
        assert(xb == 0) by (nonlinear_arith)
            requires
                xb * ya == 0,
                ya != 0,
        ;
    } else if xb == 0 {
        assert(xa * yb == 0);
        assert(xa == 0) by (nonlinear_arith)
            requires
                xa * yb == 0,
                yb != 0,
        ;
    } else {
        assert((xa < 0 && xb > 0) || (xa > 0 && xb < 0)) by (nonlinear_arith)
            requires
                xa * xb <= 0,
                xa != 0,
                xb != 0,
        ;
    }
}

/// A point on an edge is found by the edge's tests, unless it is the edge's
/// start, which the edge before finds.
proof fn lemma_on_segment_touch<T: IntPoint>(pt: T, a: T, b: T)
    requires
        on_segment(pt, a, b),
        !(a.x_coord() == pt.x_coord() && a.y_coord() == pt.y_coord()),
    ensures
        touches_edge(pt, a, b),
{
    let (xa, ya) = (a.x_coord() - pt.x_coord(), a.y_coord() - pt.y_coord());
    let (xb, yb) = (b.x_coord() - pt.x_coord(), b.y_coord() - pt.y_coord());
    if xb == 0 && yb == 0 {
    } else if ya == 0 && yb == 0 {
        assert(xa * xb < 0) by (nonlinear_arith)
            requires
                xa * xb + ya * yb <= 0,
                ya == 0,
                yb == 0,
                xa != 0,
                xb != 0,
        ;
        assert((xb > 0) == (xa < 0)) by (nonlinear_arith)
            requires
                xa * xb < 0,
        ;
    } else {
        lemma_segment_arith(xa, ya, xb, yb);
    }
}

/// The crossing test of the classification is the direction-free ray test.
proof fn lemma_crosses_is_ray_hit<T: IntPoint>(pt: T, a: T, b: T)
    ensures
        crosses_ray(pt, a, b) == ray_hit(pt, a, b),
{
    let (xa, ya) = (a.x_coord() - pt.x_coord(), a.y_coord() - pt.y_coord());
    let (xb, yb) = (b.x_coord() - pt.x_coord(), b.y_coord() - pt.y_coord());
    if straddles(pt, a, b) {
        if xa >= 0 && xb > 0 {
            assert((xa * yb - xb * ya > 0) == (yb > ya)) by (nonlinear_arith)
                requires
                    xa >= 0,
                    xb > 0,
                    (ya < 0) != (yb < 0),
            ;
        } else if xa < 0 && xb <= 0 {
            assert((xa * yb - xb * ya > 0) != (yb > ya)) by (nonlinear_arith)
                requires
                    xa < 0,
                    xb <= 0,
                    (ya < 0) != (yb < 0),
            ;
        }
    }
}

/// Away from the edge, the ray test does not depend on the edge's
/// direction.
proof fn lemma_ray_hit_symmetric<T: IntPoint>(pt: T, a: T, b: T)
    requires
        !on_segment(pt, a, b),
    ensures
        ray_hit(pt, a, b) == ray_hit(pt, b, a),
{
    lemma_touch_on_segment(pt, a, b);
}

proof fn lemma_on_segment_symmetric<T: IntPoint>(pt: T, a: T, b: T)
    ensures
        on_segment(pt, a, b) == on_segment(pt, b, a),
{
    let (xa, ya) = (a.x_coord() - pt.x_coord(), a.y_coord() - pt.y_coord());
    let (xb, yb) = (b.x_coord() - pt.x_coord(), b.y_coord() - pt.y_coord());
    assert(xa * xb + ya * yb == xb * xa + yb * ya) by (nonlinear_arith);
}

/// The classification answers -1 exactly when `pt` lies on an edge of the
/// polygon (with at least three vertices).
pub proof fn lemma_boundary_means_on_edge<T: IntPoint>(pt: T, poly: Seq<T>)
    ensures
        (point_in_polygon(pt, poly) == -1) == (poly.len() >= 3 && on_boundary(pt, poly)),
{
    let n = poly.len() as int;
    if n >= 3 {
        if exists|i: int| 0 <= i < n && #[trigger] edge_touches(pt, poly, i) {
            let i = choose|i: int| 0 <= i < n && #[trigger] edge_touches(pt, poly, i);
            lemma_touch_on_segment(pt, poly[i], poly[next_index(n, i)]);
            assert(on_segment(pt, poly[i], poly[next_index(n, i)]));
        }
        if on_boundary(pt, poly) {
            let i = choose|i: int|
                0 <= i < n && #[trigger] on_segment(pt, poly[i], poly[next_index(n, i)]);
            if poly[i].x_coord() == pt.x_coord() && poly[i].y_coord() == pt.y_coord() {
                let j = prev_index(n, i);
                assert(next_index(n, j) == i);
                assert(edge_touches(pt, poly, j));
            } else {
                lemma_on_segment_touch(pt, poly[i], poly[next_index(n, i)]);
                assert(edge_touches(pt, poly, i));
            }
        }
    }
}

/// The edge of the reversed list at position `i` is edge `reversed_edge(n, i)`
/// of the original, run backwards.
pub open spec fn reversed_edge(n: int, i: int) -> int {
    if i == n - 1 {
        n - 1
    } else {
        n - 2 - i
    }
}

proof fn lemma_reverse_edge<T: IntPoint>(poly: Seq<T>, i: int)
    requires
        poly.len() >= 1,
        0 <= i < poly.len(),
    ensures
        0 <= reversed_edge(poly.len() as int, i) < poly.len(),
        poly.reverse()[i] == poly[next_index(poly.len() as int, reversed_edge(poly.len() as int, i))],
        poly.reverse()[next_index(poly.len() as int, i)] == poly[reversed_edge(poly.len() as int, i)],
{
}

proof fn lemma_sum_reflect(f: spec_fn(int) -> int, m: int)
    requires
        m >= 0,
    ensures
        sum_of(|i: int| f(m - 1 - i), m) == sum_of(f, m),
    decreases m,
{
    if m > 0 {
        let g = |i: int| f(m - 1 - i);
        let f1 = |k: int| f(k + 1);
        lemma_sum_reflect(f1, m - 1);
        lemma_sum_ext(g, |i: int| f1(m - 1 - 1 - i), m - 1);
        lemma_sum_split(f, 1, m - 1);
        lemma_sum_ext(|i: int| f(i + 1), f1, m - 1);
        assert(sum_of(f, 0) == 0);
        assert(sum_of(f, 1) == f(0));
        assert(sum_of(g, m) == sum_of(g, m - 1) + g(m - 1));
    }
}

/// Reversing the order of the vertices does not change where a point lies
/// with respect to the polygon.
pub proof fn lemma_reverse_keeps_point_in_polygon<T: IntPoint>(pt: T, poly: Seq<T>)
    ensures
        point_in_polygon(pt, poly.reverse()) == point_in_polygon(pt, poly),
{
    let n = poly.len() as int;
    let rev = poly.reverse();
    if n < 3 {
        return;
    }
    assert forall|i: int| 0 <= i < n implies #[trigger] on_segment(
        pt,
        rev[i],
        rev[next_index(n, i)],
    ) == on_segment(
        pt,
        poly[reversed_edge(n, i)],
        poly[next_index(n, reversed_edge(n, i))],
    ) by {
        lemma_reverse_edge(poly, i);
        lemma_on_segment_symmetric(
            pt,
            poly[reversed_edge(n, i)],
            poly[next_index(n, reversed_edge(n, i))],
        );
    }
    if on_boundary(pt, poly) {
        let j = choose|j: int|
            0 <= j < n && #[trigger] on_segment(pt, poly[j], poly[next_index(n, j)]);
        let i = if j == n - 1 {
            n - 1
        } else {
            n - 2 - j
        };
        assert(reversed_edge(n, i) == j);
        assert(on_segment(pt, rev[i], rev[next_index(n, i)]));
    }
    if on_boundary(pt, rev) {
        let i = choose|i: int|
            0 <= i < n && #[trigger] on_segment(pt, rev[i], rev[next_index(n, i)]);
        assert(on_segment(
            pt,
            poly[reversed_edge(n, i)],
            poly[next_index(n, reversed_edge(n, i))],
        ));
    }
    lemma_boundary_means_on_edge(pt, poly);
    lemma_boundary_means_on_edge(pt, rev);
    if !on_boundary(pt, poly) {
        let f = |i: int|
            if edge_crosses(pt, poly, i) {
                1int
            } else {
                0int
            };
        let fr = |i: int|
            if edge_crosses(pt, rev, i) {
                1int
            } else {
                0int
            };
        let h = |i: int| f(reversed_edge(n, i));
        assert forall|i: int| 0 <= i < n implies #[trigger] fr(i) == h(i) by {
            let j = reversed_edge(n, i);
            lemma_reverse_edge(poly, i);
            let a = poly[j];
            let b = poly[next_index(n, j)];
            assert(!on_segment(pt, a, b));
            lemma_crosses_is_ray_hit(pt, b, a);
            lemma_crosses_is_ray_hit(pt, a, b);
            lemma_ray_hit_symmetric(pt, a, b);
        }
        lemma_crossing_count_is_sum(pt, poly, n);
        lemma_crossing_count_is_sum(pt, rev, n);
        lemma_sum_ext(fr, h, n);
        // the edges 0 .. n - 2 are met in the opposite order, the last edge stays
        let m = n - 1;
        let g = |i: int| f(m - 1 - i);
        lemma_sum_reflect(f, m);
        assert(sum_of(g, m) == sum_of(f, m));
        lemma_sum_ext(h, g, m);
        assert(sum_of(h, m) == sum_of(f, m));
        assert(sum_of(h, n) == sum_of(h, n - 1) + h(n - 1));
        assert(sum_of(f, n) == sum_of(f, n - 1) + f(n - 1));
        assert(sum_of(fr, n) == sum_of(f, n));
        assert(crossing_count(pt, rev, n) == crossing_count(pt, poly, n));
        assert(!on_boundary(pt, rev));
    }
}

/// How many edges of `poly` the rightward ray from `pt` meets.
pub open spec fn ray_hit_count<T: IntPoint>(pt: T, poly: Seq<T>) -> int {
    sum_of(
        |i: int|
            if ray_hit(pt, poly[i], poly[next_index(poly.len() as int, i)]) {
                1int
            } else {
                0int
            },
        poly.len() as int,
    )
}

/// Off the boundary of a polygon, a point is inside exactly when the ray
/// from it to the right meets an odd number of edges: each further edge met
/// turns inside into outside and back. On the boundary the answer is -1.
pub proof fn lemma_inside_is_odd_ray_hits<T: IntPoint>(pt: T, poly: Seq<T>)
    requires
        poly.len() >= 3,
    ensures
        on_boundary(pt, poly) ==> point_in_polygon(pt, poly) == -1,
        !on_boundary(pt, poly) ==> point_in_polygon(pt, poly) == if ray_hit_count(pt, poly) % 2
            == 1 {
            1i8
        } else {
            0i8
        },
{
    let n = poly.len() as int;
    lemma_boundary_means_on_edge(pt, poly);
    let fc = |i: int|
        if edge_crosses(pt, poly, i) {
            1int
        } else {
            0int
        };
    let fh = |i: int|
        if ray_hit(pt, poly[i], poly[next_index(n, i)]) {
            1int
        } else {
            0int
        };
    assert forall|i: int| 0 <= i < n implies #[trigger] fc(i) == fh(i) by {
        lemma_crosses_is_ray_hit(pt, poly[i], poly[next_index(n, i)]);
    }
    lemma_crossing_count_is_sum(pt, poly, n);
    lemma_sum_ext(fc, fh, n);
    assert(crossing_count(pt, poly, n) == ray_hit_count(pt, poly));
}

} // verus!
