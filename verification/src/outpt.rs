//! Output polygons under construction: rings of points linked by index in an
//! arena, the records that own them, and tests on them.
use vstd::prelude::*;
use vstd::set_lib::{lemma_int_range, lemma_len_subset, set_int_range};

use crate::consts::{IS_HOLE, IS_OPEN};
use crate::path::{is_point_in_path, lemma_vertex_on_boundary, point_in_polygon, Path};
use crate::point::{points_equal, same_point, IntPoint};
use crate::PolyNodeIndex;

verus! {

/// A point of an output ring; `next` and `prev` are positions in the arena
/// that holds the ring.
pub struct OutPt<T: IntPoint> {
    pub idx: usize,
    pub pt: T,
    pub next: usize,
    pub prev: usize,
}

/// An output polygon: its ring of points and its place among the results.
pub struct OutRec {
    pub idx: usize,
    /// Flag bits `IS_HOLE` and `IS_OPEN`.
    pub is_hole_open: u8,
    /// The position of the record whose polygon holds this one.
    pub first_left: usize,
    pub poly_node: PolyNodeIndex,
    /// The position of one point of the ring in the point arena.
    pub pts: usize,
    /// The position of the lowest point of the ring in the point arena.
    pub bottom_pt: usize,
}

/// Two output points that are to be joined.
pub struct Join<T: IntPoint> {
    pub out_pt1: usize,
    pub out_pt2: usize,
    pub off_pt: T,
}

impl OutRec {
    /// Whether the hole flag is clear.
    pub fn is_hole(&self) -> (r: bool)
        ensures
            r == (self.is_hole_open & IS_HOLE == 0),
    {
        self.is_hole_open & IS_HOLE == 0
    }

    /// Whether the open flag is clear.
    pub fn is_open(&self) -> (r: bool)
        ensures
            r == (self.is_hole_open & IS_OPEN == 0),
    {
        self.is_hole_open & IS_OPEN == 0
    }
}

/// The position reached from `start` after following `next` `k` times.
pub open spec fn follow<T: IntPoint>(pts: Seq<OutPt<T>>, start: int, k: nat) -> int
    decreases k,
{
    if k == 0 {
        start
    } else {
        pts[follow(pts, start, (k - 1) as nat)].next as int
    }
}

/// Every `next` and `prev` link names a position of the arena.
pub open spec fn links_in_bounds<T: IntPoint>(pts: Seq<OutPt<T>>) -> bool {
    forall|i: int|
        0 <= i < pts.len() ==> (#[trigger] pts[i]).next < pts.len() && pts[i].prev < pts.len()
}

/// `n` steps along `next` lead from `start` back to it for the first time.
pub open spec fn is_ring_len<T: IntPoint>(pts: Seq<OutPt<T>>, start: int, n: nat) -> bool {
    &&& 1 <= n
    &&& follow(pts, start, n) == start
    &&& forall|j: nat| 0 < j < n ==> #[trigger] follow(pts, start, j) != start
}

/// `start` lies on a closed ring of the arena.
pub open spec fn ring_wf<T: IntPoint>(pts: Seq<OutPt<T>>, start: int) -> bool {
    &&& 0 <= start < pts.len()
    &&& links_in_bounds(pts)
    &&& exists|n: nat| is_ring_len(pts, start, n)
}

/// The number of points on the ring through `start`.
pub open spec fn ring_len<T: IntPoint>(pts: Seq<OutPt<T>>, start: int) -> nat {
    choose|n: nat| is_ring_len(pts, start, n)
}

/// The points of the ring through `start`, beginning there and following
/// `next`.
pub open spec fn ring_points<T: IntPoint>(pts: Seq<OutPt<T>>, start: int) -> Seq<T> {
    Seq::new(ring_len(pts, start), |j: int| pts[follow(pts, start, j as nat)].pt)
}

/// Whether position `i` is on the ring through `start`.
pub open spec fn on_ring<T: IntPoint>(pts: Seq<OutPt<T>>, start: int, i: int) -> bool {
    exists|j: nat| j < ring_len(pts, start) && #[trigger] follow(pts, start, j) == i
}

proof fn lemma_follow_in_bounds<T: IntPoint>(pts: Seq<OutPt<T>>, start: int, k: nat)
    requires
        0 <= start < pts.len(),
        links_in_bounds(pts),
    ensures
        0 <= follow(pts, start, k) < pts.len(),
    decreases k,
{
    if k > 0 {
        lemma_follow_in_bounds(pts, start, (k - 1) as nat);
        let c = follow(pts, start, (k - 1) as nat);
        assert(pts[c].next < pts.len());
    }
}

proof fn lemma_ring_len_unique<T: IntPoint>(pts: Seq<OutPt<T>>, start: int, n: nat)
    requires
        is_ring_len(pts, start, n),
    ensures
        ring_len(pts, start) == n,
{
    let m = ring_len(pts, start);
    assert(is_ring_len(pts, start, m));
    if m < n {
        assert(follow(pts, start, m) != start);
    } else if n < m {
        assert(follow(pts, start, n) != start);
    }
}

proof fn lemma_follow_add<T: IntPoint>(pts: Seq<OutPt<T>>, start: int, a: nat, t: nat)
    ensures
        follow(pts, start, a + t) == follow(pts, follow(pts, start, a), t),
    decreases t,
{
    if t > 0 {
        lemma_follow_add(pts, start, a, (t - 1) as nat);
        assert((a + t - 1) as nat == a + (t - 1) as nat);
    }
}

/// The points of a ring are distinct positions.
proof fn lemma_ring_distinct<T: IntPoint>(pts: Seq<OutPt<T>>, start: int, a: nat, b: nat)
    requires
        ring_wf(pts, start),
        a < b < ring_len(pts, start),
    ensures
        follow(pts, start, a) != follow(pts, start, b),
{
    let n = ring_len(pts, start);
    assert(is_ring_len(pts, start, n));
    let t = (n - b) as nat;
    lemma_follow_add(pts, start, a, t);
    lemma_follow_add(pts, start, b, t);
    assert(b + t == n);
    if follow(pts, start, a) == follow(pts, start, b) {
        assert(follow(pts, start, a + t) == start);
        assert(0 < a + t < n);
    }
}

/// A ring has no more points than the arena that holds it.
proof fn lemma_ring_len_bound<T: IntPoint>(pts: Seq<OutPt<T>>, start: int)
    requires
        ring_wf(pts, start),
    ensures
        ring_len(pts, start) <= pts.len(),
{
    let n = ring_len(pts, start);
    assert(is_ring_len(pts, start, n));
    let s = Seq::new(n, |j: int| follow(pts, start, j as nat));
    assert forall|a: int, b: int| 0 <= a < s.len() && 0 <= b < s.len() && a != b implies s[a]
        != s[b] by {
        if a < b {
            lemma_ring_distinct(pts, start, a as nat, b as nat);
        } else {
            lemma_ring_distinct(pts, start, b as nat, a as nat);
        }
    }
    assert(s.no_duplicates());
    s.unique_seq_to_set();
    assert forall|x: int| s.to_set().contains(x) implies set_int_range(0, pts.len() as int).contains(
        x,
    ) by {
        let j = choose|j: int| 0 <= j < s.len() && s[j] == x;
        lemma_follow_in_bounds(pts, start, j as nat);
    }
    lemma_int_range(0, pts.len() as int);
    lemma_len_subset(s.to_set(), set_int_range(0, pts.len() as int));
}

/// The number of points on the ring through `start`, or `None` when `start`
/// is not on a closed ring of the arena (or some link leaves the arena).
pub fn ring_length<T: IntPoint>(pts: &Vec<OutPt<T>>, start: usize) -> (r: Option<usize>)
    ensures
        r is Some <==> ring_wf(pts@, start as int),
        r matches Some(n) ==> n == ring_len(pts@, start as int),
{
    let len = pts.len();
    if start >= len {
        return None;
    }
    let mut i: usize = 0;
    while i < len
        invariant
            len == pts@.len(),
            i <= len,
            forall|j: int| 0 <= j < i ==> (#[trigger] pts@[j]).next < len && pts@[j].prev < len,
        decreases len - i,
    {
        if pts[i].next >= len || pts[i].prev >= len {
            return None;
        }
        i = i + 1;
    }
    assert(links_in_bounds(pts@));
    let mut cur = pts[start].next;
    let mut k: usize = 1;
    assert(follow(pts@, start as int, 0) == start);
    assert(cur == follow(pts@, start as int, 1));
    loop
        invariant
            len == pts@.len(),
            0 <= start < len,
            links_in_bounds(pts@),
            1 <= k <= len,
            cur == follow(pts@, start as int, k as nat),
            cur < len,
            forall|j: nat| 0 < j < k ==> #[trigger] follow(pts@, start as int, j) != start,
        ensures
            forall|j: nat| 0 < j <= len ==> #[trigger] follow(pts@, start as int, j) != start,
        decreases len - k,
    {
        if cur == start {
            proof {
                assert(is_ring_len(pts@, start as int, k as nat));
                lemma_ring_len_unique(pts@, start as int, k as nat);
            }
            return Some(k);
        }
        if k == len {
            break ;
        }
        proof {
            lemma_follow_in_bounds(pts@, start as int, (k + 1) as nat);
        }
        cur = pts[cur].next;
        k = k + 1;
    }
    proof {
        if ring_wf(pts@, start as int) {
            lemma_ring_len_bound(pts@, start as int);
            let n = ring_len(pts@, start as int);
            assert(is_ring_len(pts@, start as int, n));
            assert(follow(pts@, start as int, n) != start);
        }
    }
    None
}

/// Collects the points of the ring through `start` into a vertex list.
pub fn ring_path<T: IntPoint>(pts: &Vec<OutPt<T>>, start: usize) -> (r: Vec<T>)
    requires
        ring_wf(pts@, start as int),
    ensures
        r@ == ring_points(pts@, start as int),
{
    let ghost n = ring_len(pts@, start as int);
    proof {
        assert(is_ring_len(pts@, start as int, n));
    }
    let mut out: Vec<T> = Vec::new();
    let mut cur = start;
    let ghost mut k: nat = 0;
    loop
        invariant_except_break
            k < n,
        invariant
            ring_wf(pts@, start as int),
            n == ring_len(pts@, start as int),
            is_ring_len(pts@, start as int, n),
            k <= n,
            cur == follow(pts@, start as int, k),
            cur < pts@.len(),
            out@.len() == k,
            forall|j: int| 0 <= j < k ==> out@[j] == pts@[follow(pts@, start as int, j as nat)].pt,
        ensures
            out@.len() == n,
            forall|j: int| 0 <= j < n ==> out@[j] == pts@[follow(pts@, start as int, j as nat)].pt,
        decreases n - k,
    {
        out.push(pts[cur].pt);
        cur = pts[cur].next;
        proof {
            k = k + 1;
            assert(cur == follow(pts@, start as int, k));
            lemma_follow_in_bounds(pts@, start as int, k);
        }
        if cur == start {
            break ;
        }
    }
    assert(out@ == ring_points(pts@, start as int));
    out
}

/// Whether `pt` is one of the points of the ring through `pp`.
pub fn point_is_vertex<T: IntPoint>(pt: &T, pts: &Vec<OutPt<T>>, pp: usize) -> (r: bool)
    requires
        ring_wf(pts@, pp as int),
    ensures
        r == exists|j: int|
            0 <= j < ring_len(pts@, pp as int) && same_point(
                #[trigger] ring_points(pts@, pp as int)[j],
                *pt,
            ),
{
    let ring = ring_path(pts, pp);
    let ghost s = ring_points(pts@, pp as int);
    let mut i: usize = 0;
    while i < ring.len()
        invariant
            ring@ == s,
            s == ring_points(pts@, pp as int),
            i <= s.len(),
            s.len() == ring_len(pts@, pp as int),
            forall|j: int| 0 <= j < i ==> !same_point(#[trigger] s[j], *pt),
        decreases ring.len() - i,
    {
        if points_equal(&ring[i], pt) {
            assert(same_point(ring_points(pts@, pp as int)[i as int], *pt));
            return true;
        }
        i = i + 1;
    }
    false
}

/// Classifies `pt` against the polygon of the ring through `op`: 0 outside,
/// +1 inside, -1 on the boundary.
pub fn is_point_in_out_pt<T: IntPoint>(pt: &T, pts: &Vec<OutPt<T>>, op: usize) -> (r: i8)
    requires
        ring_wf(pts@, op as int),
    ensures
        r == point_in_polygon(*pt, ring_points(pts@, op as int)),
{
    let out_path = ring_path(pts, op);
    is_point_in_path(pt, &Path { poly: out_path })
}

/// Whether the polygon `poly2` holds the polygon whose vertices from `k` on
/// are `poly1[k..]`: decided by the first of those vertices that is not on
/// the boundary of `poly2`, and true when every one is on it.
pub open spec fn contains_from<T: IntPoint>(poly1: Seq<T>, poly2: Seq<T>, k: int) -> bool
    decreases poly1.len() - k,
{
    if k < 0 || k >= poly1.len() {
        true
    } else if point_in_polygon(poly1[k], poly2) >= 0 {
        point_in_polygon(poly1[k], poly2) > 0
    } else {
        contains_from(poly1, poly2, k + 1)
    }
}

/// The walk round a ring begins at the given point.
pub proof fn lemma_ring_starts_at<T: IntPoint>(pts: Seq<OutPt<T>>, start: int)
    requires
        ring_wf(pts, start),
    ensures
        ring_points(pts, start).len() >= 1,
        ring_points(pts, start)[0] == pts[start].pt,
{
    assert(is_ring_len(pts, start, ring_len(pts, start)));
    assert(follow(pts, start, 0) == start);
}

proof fn lemma_contains_skips_boundary<T: IntPoint>(poly1: Seq<T>, poly2: Seq<T>, j: int, k: int)
    requires
        0 <= j <= k,
        forall|m: int| j <= m < k ==> #[trigger] point_in_polygon(poly1[m], poly2) == -1,
    ensures
        contains_from(poly1, poly2, j) == contains_from(poly1, poly2, k),
    decreases k - j,
{
    if j < k {
        lemma_contains_skips_boundary(poly1, poly2, j + 1, k);
        if j < poly1.len() {
            assert(point_in_polygon(poly1[j], poly2) == -1);
        }
    }
}

/// One polygon holds another as judged by the first vertex of the latter,
/// counting from its start, that is not on the former's boundary: it holds
/// it when that vertex is inside. Where every vertex is on the boundary, it
/// holds it.
pub proof fn lemma_first_vertex_off_boundary_decides<T: IntPoint>(
    poly1: Seq<T>,
    poly2: Seq<T>,
    k: int,
)
    ensures
        0 <= k < poly1.len() && (forall|m: int|
            0 <= m < k ==> #[trigger] point_in_polygon(poly1[m], poly2) == -1) && point_in_polygon(
            poly1[k],
            poly2,
        ) != -1 ==> contains_from(poly1, poly2, 0) == (point_in_polygon(poly1[k], poly2) == 1),
        (forall|m: int| 0 <= m < poly1.len() ==> #[trigger] point_in_polygon(poly1[m], poly2) == -1)
            ==> contains_from(poly1, poly2, 0),
{
    if 0 <= k < poly1.len() && (forall|m: int|
        0 <= m < k ==> #[trigger] point_in_polygon(poly1[m], poly2) == -1) && point_in_polygon(
        poly1[k],
        poly2,
    ) != -1 {
        lemma_contains_skips_boundary(poly1, poly2, 0, k);
    }
    if forall|m: int| 0 <= m < poly1.len() ==> #[trigger] point_in_polygon(poly1[m], poly2) == -1 {
        lemma_contains_skips_boundary(poly1, poly2, 0, poly1.len() as int);
    }
}

/// Whether the polygon of the ring through `pt2` holds that of the ring
/// through `pt1`, judged by the first vertex of the latter that is not on the
/// boundary of the former.
pub fn poly2_contains_poly1<T: IntPoint>(pts: &Vec<OutPt<T>>, pt1: usize, pt2: usize) -> (r: bool)
    requires
        ring_wf(pts@, pt1 as int),
        ring_wf(pts@, pt2 as int),
    ensures
        r == contains_from(ring_points(pts@, pt1 as int), ring_points(pts@, pt2 as int), 0),
{
    let ring2 = ring_path(pts, pt2);
    let pt2_path = Path { poly: ring2 };
    let ring1 = ring_path(pts, pt1);
    assert(pt2_path.poly@ == ring_points(pts@, pt2 as int));
    let ghost s1 = ring1@;
    let ghost s2 = pt2_path.poly@;
    let mut i: usize = 0;
    while i < ring1.len()
        invariant
            ring1@ == s1,
            pt2_path.poly@ == s2,
            s1 == ring_points(pts@, pt1 as int),
            s2 == ring_points(pts@, pt2 as int),
            i <= s1.len(),
            contains_from(s1, s2, 0) == contains_from(s1, s2, i as int),
        decreases ring1.len() - i,
    {
        let res = is_point_in_path(&ring1[i], &pt2_path);
        assert(contains_from(s1, s2, i as int) == if point_in_polygon(s1[i as int], s2) >= 0 {
            point_in_polygon(s1[i as int], s2) > 0
        } else {
            contains_from(s1, s2, i + 1)
        });
        if res >= 0 {
            return res > 0;
        }
        i = i + 1;
    }
    assert(contains_from(s1, s2, i as int));
    true
}

/// A vertex of a ring lies on the boundary of the ring's polygon: where
/// `point_is_vertex` holds, `is_point_in_out_pt` gives -1.
pub proof fn lemma_ring_vertex_on_boundary<T: IntPoint>(pt: T, pts: Seq<OutPt<T>>, op: int, j: int)
    requires
        ring_wf(pts, op),
        ring_len(pts, op) >= 3,
        0 <= j < ring_len(pts, op),
        same_point(ring_points(pts, op)[j], pt),
    ensures
        point_in_polygon(pt, ring_points(pts, op)) == -1,
{
    lemma_vertex_on_boundary(pt, ring_points(pts, op), j);
}

/// Whether the arena `after` is `before` with the links of every point on
/// the ring through `start` turned around.
pub open spec fn ring_reversed<T: IntPoint>(
    before: Seq<OutPt<T>>,
    after: Seq<OutPt<T>>,
    start: int,
) -> bool {
    &&& after.len() == before.len()
    &&& forall|i: int|
        0 <= i < before.len() ==> {
            &&& (#[trigger] after[i]).idx == before[i].idx
            &&& after[i].pt == before[i].pt
            &&& if on_ring(before, start, i) {
                after[i].next == before[i].prev && after[i].prev == before[i].next
            } else {
                after[i].next == before[i].next && after[i].prev == before[i].prev
            }
        }
}

/// The `prev` links of the ring through `start` undo its `next` links.
pub open spec fn ring_links_consistent<T: IntPoint>(pts: Seq<OutPt<T>>, start: int) -> bool {
    forall|i: int|
        #![trigger on_ring(pts, start, i)]
        on_ring(pts, start, i) ==> pts[pts[i].next as int].prev == i && pts[pts[i].prev as int].next
            == i
}

proof fn lemma_on_ring_at<T: IntPoint>(pts: Seq<OutPt<T>>, start: int, m: nat)
    requires
        ring_wf(pts, start),
        m <= ring_len(pts, start),
    ensures
        on_ring(pts, start, follow(pts, start, m)),
{
    let n = ring_len(pts, start);
    assert(is_ring_len(pts, start, n));
    if m == n {
        assert(follow(pts, start, 0) == start);
    }
}

proof fn lemma_prev_step<T: IntPoint>(pts: Seq<OutPt<T>>, start: int, m: nat)
    requires
        ring_wf(pts, start),
        ring_links_consistent(pts, start),
        1 <= m <= ring_len(pts, start),
    ensures
        pts[follow(pts, start, m)].prev == follow(pts, start, (m - 1) as nat),
{
    let x = follow(pts, start, (m - 1) as nat);
    lemma_on_ring_at(pts, start, (m - 1) as nat);
    assert(on_ring(pts, start, x));
}

proof fn lemma_reversed_follow<T: IntPoint>(
    before: Seq<OutPt<T>>,
    after: Seq<OutPt<T>>,
    start: int,
    j: nat,
)
    requires
        ring_wf(before, start),
        ring_links_consistent(before, start),
        ring_reversed(before, after, start),
        j <= ring_len(before, start),
    ensures
        follow(after, start, j) == follow(before, start, (ring_len(before, start) - j) as nat),
    decreases j,
{
    let n = ring_len(before, start);
    assert(is_ring_len(before, start, n));
    if j > 0 {
        lemma_reversed_follow(before, after, start, (j - 1) as nat);
        let m = (n - (j - 1)) as nat;
        let y = follow(before, start, m);
        lemma_on_ring_at(before, start, m);
        lemma_follow_in_bounds(before, start, m);
        assert(after[y].next == before[y].prev);
        lemma_prev_step(before, start, m);
    }
}

/// On a ring whose `prev` links undo its `next` links, reversing the ring
/// lists its points in the opposite order from the same start.
pub proof fn lemma_reverse_reverses_points<T: IntPoint>(
    a: Seq<OutPt<T>>,
    b: Seq<OutPt<T>>,
    start: int,
)
    requires
        ring_wf(a, start),
        ring_links_consistent(a, start),
        ring_reversed(a, b, start),
    ensures
        ring_points(b, start).len() == ring_points(a, start).len(),
        forall|j: int|
            0 <= j < ring_points(a, start).len() ==> #[trigger] ring_points(b, start)[j]
                == ring_points(a, start)[if j == 0 {
                0
            } else {
                ring_points(a, start).len() - j
            }],
{
    let n = ring_len(a, start);
    assert(is_ring_len(a, start, n));
    lemma_reversed_ring(a, b, start);
    assert forall|j: int| 0 <= j < n implies #[trigger] ring_points(b, start)[j] == ring_points(
        a,
        start,
    )[if j == 0 {
        0
    } else {
        n - j
    }] by {
        lemma_reversed_follow(a, b, start, j as nat);
        let y = follow(a, start, (n - j) as nat);
        lemma_follow_in_bounds(a, start, (n - j) as nat);
        assert(b[y].pt == a[y].pt);
        if j == 0 {
            assert(follow(a, start, 0) == start);
        }
    }
}

/// Reversing a consistent ring gives a ring through the same points.
proof fn lemma_reversed_ring<T: IntPoint>(a: Seq<OutPt<T>>, b: Seq<OutPt<T>>, start: int)
    requires
        ring_wf(a, start),
        ring_links_consistent(a, start),
        ring_reversed(a, b, start),
    ensures
        ring_wf(b, start),
        ring_len(b, start) == ring_len(a, start),
        forall|i: int| on_ring(b, start, i) == on_ring(a, start, i),
{
    let n = ring_len(a, start);
    assert(is_ring_len(a, start, n));
    assert forall|i: int| 0 <= i < b.len() implies (#[trigger] b[i]).next < b.len() && b[i].prev
        < b.len() by {
        assert(a[i].next < a.len() && a[i].prev < a.len());
    }
    assert forall|j: nat| j <= n implies #[trigger] follow(b, start, j) == follow(
        a,
        start,
        (n - j) as nat,
    ) by {
        lemma_reversed_follow(a, b, start, j);
    }
    assert(follow(b, start, n) == start);
    assert forall|j: nat| 0 < j < n implies #[trigger] follow(b, start, j) != start by {
        assert(follow(a, start, (n - j) as nat) != start);
    }
    assert(is_ring_len(b, start, n));
    lemma_ring_len_unique(b, start, n);
    assert(ring_wf(b, start));
    assert forall|i: int| on_ring(b, start, i) == on_ring(a, start, i) by {
        if on_ring(b, start, i) {
            let j = choose|j: nat| j < n && #[trigger] follow(b, start, j) == i;
            let m = (n - j) as nat;
            lemma_on_ring_at(a, start, m);
        }
        if on_ring(a, start, i) {
            let m = choose|m: nat| m < n && #[trigger] follow(a, start, m) == i;
            if m == 0 {
                assert(follow(b, start, 0) == i);
            } else {
                let j = (n - m) as nat;
                assert(follow(b, start, j) == follow(a, start, m));
            }
        }
    }
}

/// On a ring whose `prev` links undo its `next` links, reversing the ring
/// keeps it a consistent ring through the same points, and reversing it
/// again restores the arena.
pub proof fn lemma_reverse_twice_restores<T: IntPoint>(
    a: Seq<OutPt<T>>,
    b: Seq<OutPt<T>>,
    c: Seq<OutPt<T>>,
    start: int,
)
    requires
        ring_wf(a, start),
        ring_links_consistent(a, start),
        ring_reversed(a, b, start),
        ring_reversed(b, c, start),
    ensures
        ring_wf(b, start),
        ring_links_consistent(b, start),
        ring_len(b, start) == ring_len(a, start),
        forall|i: int| on_ring(b, start, i) == on_ring(a, start, i),
        c == a,
{
    let n = ring_len(a, start);
    assert(is_ring_len(a, start, n));
    lemma_reversed_ring(a, b, start);
    assert forall|i: int| #![trigger on_ring(b, start, i)] on_ring(b, start, i) implies b[b[i].next as int].prev == i
        && b[b[i].prev as int].next == i by {
        assert(on_ring(a, start, i));
        let m = choose|m: nat| m < n && #[trigger] follow(a, start, m) == i;
        lemma_follow_in_bounds(a, start, m);
        let p = a[i].prev as int;
        let q = a[i].next as int;
        assert(on_ring(a, start, p)) by {
            if m == 0 {
                lemma_prev_step(a, start, n);
                lemma_on_ring_at(a, start, (n - 1) as nat);
            } else {
                lemma_prev_step(a, start, m);
                lemma_on_ring_at(a, start, (m - 1) as nat);
            }
        }
        assert(on_ring(a, start, q)) by {
            lemma_on_ring_at(a, start, m + 1);
        }
    }
    assert forall|i: int| 0 <= i < a.len() implies #[trigger] c[i] == a[i] by {
        assert(c[i].next == a[i].next);
    }
    assert(c =~= a);
}

impl<T: IntPoint> OutPt<T> {
    /// Turns the ring through `start` around: every point on it swaps its
    /// `next` and `prev` links.
    pub fn reverse_poly_pt_list(pts: &mut Vec<OutPt<T>>, start: usize)
        requires
            ring_wf(old(pts)@, start as int),
        ensures
            ring_reversed(old(pts)@, final(pts)@, start as int),
    {
        let ghost before = pts@;
        let ghost n = ring_len(before, start as int);
        proof {
            assert(is_ring_len(before, start as int, n));
        }
        let mut pp1 = start;
        let ghost mut k: nat = 0;
        loop
            invariant_except_break
                k < n,
            invariant
                ring_wf(before, start as int),
                n == ring_len(before, start as int),
                is_ring_len(before, start as int, n),
                k <= n,
                pp1 == follow(before, start as int, k),
                pp1 < before.len(),
                pts@.len() == before.len(),
                forall|i: int|
                    0 <= i < before.len() ==> {
                        &&& (#[trigger] pts@[i]).idx == before[i].idx
                        &&& pts@[i].pt == before[i].pt
                        &&& if exists|j: nat| j < k && #[trigger] follow(before, start as int, j) == i {
                            pts@[i].next == before[i].prev && pts@[i].prev == before[i].next
                        } else {
                            pts@[i].next == before[i].next && pts@[i].prev == before[i].prev
                        }
                    },
            ensures
                pts@.len() == before.len(),
                forall|i: int|
                    0 <= i < before.len() ==> {
                        &&& (#[trigger] pts@[i]).idx == before[i].idx
                        &&& pts@[i].pt == before[i].pt
                        &&& if exists|j: nat| j < n && #[trigger] follow(before, start as int, j) == i {
                            pts@[i].next == before[i].prev && pts@[i].prev == before[i].next
                        } else {
                            pts@[i].next == before[i].next && pts@[i].prev == before[i].prev
                        }
                    },
            decreases n - k,
        {
            proof {
                assert forall|j: nat| j < k implies #[trigger] follow(before, start as int, j) != pp1 by {
                    lemma_ring_distinct(before, start as int, j, k);
                }
            }
            let o_idx = pts[pp1].idx;
            let o_pt = pts[pp1].pt;
            let o_prev = pts[pp1].prev;
            let pp2 = pts[pp1].next;
            assert(pp2 == before[pp1 as int].next);
            let ghost cur = pts@;
            pts.set(pp1, OutPt { idx: o_idx, pt: o_pt, next: o_prev, prev: pp2 });
            proof {
                assert forall|i: int| 0 <= i < before.len() implies {
                    &&& (#[trigger] pts@[i]).idx == before[i].idx
                    &&& pts@[i].pt == before[i].pt
                    &&& if exists|j: nat| j < k + 1 && #[trigger] follow(before, start as int, j) == i {
                        pts@[i].next == before[i].prev && pts@[i].prev == before[i].next
                    } else {
                        pts@[i].next == before[i].next && pts@[i].prev == before[i].prev
                    }
                } by {
                    if i == pp1 {
                        assert(follow(before, start as int, k) == i);
                    } else {
                        assert(pts@[i] == cur[i]);
                        if exists|j: nat| j < k + 1 && #[trigger] follow(before, start as int, j) == i {
                            let j = choose|j: nat| j < k + 1 && #[trigger] follow(before, start as int, j) == i;
                            assert(j < k);
                        }
                    }
                }
            }
            pp1 = pp2;
            proof {
                k = k + 1;
                assert(pp1 == follow(before, start as int, k));
                lemma_follow_in_bounds(before, start as int, k);
            }
            if pp1 == start {
                break ;
            }
        }
    }
}

} // verus!
