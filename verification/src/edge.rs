//! The edge records of the clipping engine and exact slope comparisons.
use std::marker::PhantomData;
use vstd::prelude::*;

use crate::int128::cross_sign;
use crate::path::fits_cint;
use crate::point::{CInt, IntPoint};
use crate::{EdgeIndex, EdgeSide, PolyType};

verus! {

/// One edge of an input polygon.
///
/// The edge's inverse slope (a float) is not held here; it is derived from
/// `bot` and `top`.
pub struct Edge<T: IntPoint> {
    pub bot: T,
    /// current (updated for every new scanbeam)
    pub cur: T,
    pub top: T,
    pub poly_typ: PolyType,
    /// side only refers to current side of solution poly
    pub side: EdgeSide,
    /// 1 or -1 depending on winding direction
    pub winding_delta: u8,
    pub winding_count: isize,
    /// winding count of the opposite polytype
    pub winding_count_2: isize,
    pub out_idx: isize,
    pub next: EdgeIndex,
    pub prev: EdgeIndex,
    pub next_in_lml: EdgeIndex,
    pub next_in_ael: EdgeIndex,
    pub prev_in_ael: EdgeIndex,
    pub next_in_sel: EdgeIndex,
    pub prev_in_sel: EdgeIndex,
}

/// A crossing of two edges found while sweeping a scanbeam.
pub struct IntersectNode<T: IntPoint> {
    pub edge_1: EdgeIndex,
    pub edge_2: EdgeIndex,
    pub pt: T,
}

/// A local minimum of an input polygon: the lowest point and the two bounds
/// that rise from it.
pub struct LocalMinimum<T: IntPoint> {
    y: u64,
    left_bound: EdgeIndex,
    right_bound: EdgeIndex,
    _type: PhantomData<T>,
}

impl<T: IntPoint> Edge<T> {
    /// The x coordinate of the edge at height `current_y`, for an inverse
    /// slope already rounded to `dx_rounded`; `None` where the arithmetic
    /// leaves `CInt`.
    pub fn top_x_at(&self, current_y: CInt, dx_rounded: CInt) -> (r: Option<CInt>)
        ensures
            r is Some <==> edge_x_at_fits(*self, current_y as int, dx_rounded as int),
            r matches Some(v) ==> v == edge_x_at(*self, current_y as int, dx_rounded as int),
    {
        if current_y == self.top.get_y() {
            return Some(self.top.get_x());
        }
        let dy = match current_y.checked_sub(self.bot.get_y()) {
            Some(v) => v,
            None => return None,
        };
        let step = match dx_rounded.checked_mul(dy) {
            Some(v) => v,
            None => return None,
        };
        self.bot.get_x().checked_add(step)
    }

    /// Exchanges the sides of two edges.
    pub fn swap_sides(&mut self, other: &mut Self)
        ensures
            *final(self) == (Edge { side: old(other).side, ..*old(self) }),
            *final(other) == (Edge { side: old(self).side, ..*old(other) }),
    {
        core::mem::swap(&mut self.side, &mut other.side);
    }

    /// Exchanges the output polygon indices of two edges.
    pub fn swap_poly_indices(&mut self, other: &mut Self)
        ensures
            *final(self) == (Edge { out_idx: old(other).out_idx, ..*old(self) }),
            *final(other) == (Edge { out_idx: old(self).out_idx, ..*old(other) }),
    {
        core::mem::swap(&mut self.out_idx, &mut other.out_idx);
    }
}

/// The x coordinate of an edge at height `current_y`, given its inverse
/// slope rounded to an integer: the top's x at the top, else the bottom's x
/// advanced by the slope for every unit of height.
pub open spec fn edge_x_at<T: IntPoint>(e: Edge<T>, current_y: int, dx_rounded: int) -> int {
    if current_y == e.top.y_coord() {
        e.top.x_coord() as int
    } else {
        e.bot.x_coord() + dx_rounded * (current_y - e.bot.y_coord())
    }
}

/// Whether computing `edge_x_at` stays within `CInt` at every step.
pub open spec fn edge_x_at_fits<T: IntPoint>(e: Edge<T>, current_y: int, dx_rounded: int) -> bool {
    current_y == e.top.y_coord() || {
        &&& fits_cint(current_y - e.bot.y_coord())
        &&& fits_cint(dx_rounded * (current_y - e.bot.y_coord()))
        &&& fits_cint(e.bot.x_coord() + dx_rounded * (current_y - e.bot.y_coord()))
    }
}

/// An edge passes through its ends: at the top's height it is at the top,
/// at the bottom's height at the bottom, whatever the rounded slope; and
/// between them it moves by the rounded slope for every unit of height.
pub proof fn lemma_edge_x_at_ends<T: IntPoint>(e: Edge<T>, y: int, dx_rounded: int)
    ensures
        edge_x_at_fits(e, e.top.y_coord() as int, dx_rounded),
        edge_x_at(e, e.top.y_coord() as int, dx_rounded) == e.top.x_coord(),
        edge_x_at_fits(e, e.bot.y_coord() as int, dx_rounded),
        edge_x_at(e, e.bot.y_coord() as int, dx_rounded) == if e.bot.y_coord() == e.top.y_coord() {
            e.top.x_coord()
        } else {
            e.bot.x_coord()
        },
        y != e.top.y_coord() && y + 1 != e.top.y_coord() ==> edge_x_at(e, y + 1, dx_rounded)
            - edge_x_at(e, y, dx_rounded) == dx_rounded,
{
    let by = e.bot.y_coord() as int;
    assert(dx_rounded * (by - by) == 0) by (nonlinear_arith);
    assert(dx_rounded * (y + 1 - by) - dx_rounded * (y - by) == dx_rounded) by (nonlinear_arith);
}

/// Whether the direction `(dx1, dy1)` is parallel to `(dx2, dy2)`.
pub open spec fn slopes_equal(dy1: int, dx1: int, dy2: int, dx2: int) -> bool {
    dy1 * dx2 == dx1 * dy2
}

/// Whether two edges are parallel.
pub fn slopes_equal_edge2<T: IntPoint>(e1: &Edge<T>, e2: &Edge<T>) -> (res: bool)
    ensures
        res == slopes_equal(
            e1.top.y_coord() - e1.bot.y_coord(),
            e1.top.x_coord() - e1.bot.x_coord(),
            e2.top.y_coord() - e2.bot.y_coord(),
            e2.top.x_coord() - e2.bot.x_coord(),
        ),
{
    let sdy = e1.top.get_y() as i128 - e1.bot.get_y() as i128;
    let sdx = e1.top.get_x() as i128 - e1.bot.get_x() as i128;
    let edy = e2.top.get_y() as i128 - e2.bot.get_y() as i128;
    let edx = e2.top.get_x() as i128 - e2.bot.get_x() as i128;
    cross_sign(sdy, edx, sdx, edy) == 0
}

/// Whether `p1`, `p2` and `p3` lie on one line.
pub fn slopes_equal_point3<T: IntPoint>(p1: &T, p2: &T, p3: &T) -> (res: bool)
    ensures
        res == slopes_equal(
            p1.y_coord() - p2.y_coord(),
            p1.x_coord() - p2.x_coord(),
            p2.y_coord() - p3.y_coord(),
            p2.x_coord() - p3.x_coord(),
        ),
{
    let p12y = p1.get_y() as i128 - p2.get_y() as i128;
    let p12x = p1.get_x() as i128 - p2.get_x() as i128;
    let p23y = p2.get_y() as i128 - p3.get_y() as i128;
    let p23x = p2.get_x() as i128 - p3.get_x() as i128;
    cross_sign(p12y, p23x, p12x, p23y) == 0
}

/// Whether the line through `p1` and `p2` is parallel to the line through
/// `p3` and `p4`.
pub fn slopes_equal_point4<T: IntPoint>(p1: &T, p2: &T, p3: &T, p4: &T) -> (res: bool)
    ensures
        res == slopes_equal(
            p1.y_coord() - p2.y_coord(),
            p1.x_coord() - p2.x_coord(),
            p3.y_coord() - p4.y_coord(),
            p3.x_coord() - p4.x_coord(),
        ),
{
    let p12y = p1.get_y() as i128 - p2.get_y() as i128;
    let p12x = p1.get_x() as i128 - p2.get_x() as i128;
    let p34y = p3.get_y() as i128 - p4.get_y() as i128;
    let p34x = p3.get_x() as i128 - p4.get_x() as i128;
    cross_sign(p12y, p34x, p12x, p34y) == 0
}

/// Being parallel does not depend on the order of the two directions.
pub proof fn lemma_slopes_equal_symmetric(dy1: int, dx1: int, dy2: int, dx2: int)
    ensures
        slopes_equal(dy1, dx1, dy2, dx2) == slopes_equal(dy2, dx2, dy1, dx1),
{
    assert(dy1 * dx2 == dx2 * dy1) by (nonlinear_arith);
    assert(dx1 * dy2 == dy2 * dx1) by (nonlinear_arith);
}

/// Whether three points lie on one line, as the three-point test reads it.
pub open spec fn collinear<T: IntPoint>(p1: T, p2: T, p3: T) -> bool {
    slopes_equal(
        p1.y_coord() - p2.y_coord(),
        p1.x_coord() - p2.x_coord(),
        p2.y_coord() - p3.y_coord(),
        p2.x_coord() - p3.x_coord(),
    )
}

/// The three-point test does not depend on the order of the points: rotating
/// them or reversing them gives the same answer.
pub proof fn lemma_collinear_order<T: IntPoint>(p1: T, p2: T, p3: T)
    ensures
        collinear(p1, p2, p3) == collinear(p2, p3, p1),
        collinear(p1, p2, p3) == collinear(p3, p2, p1),
{
    let (x1, y1) = (p1.x_coord() as int, p1.y_coord() as int);
    let (x2, y2) = (p2.x_coord() as int, p2.y_coord() as int);
    let (x3, y3) = (p3.x_coord() as int, p3.y_coord() as int);
    assert(((y1 - y2) * (x2 - x3) == (x1 - x2) * (y2 - y3)) == ((y2 - y3) * (x3 - x1) == (x2 - x3)
        * (y3 - y1))) by (nonlinear_arith);
    assert(((y1 - y2) * (x2 - x3) == (x1 - x2) * (y2 - y3)) == ((y3 - y2) * (x2 - x1) == (x3 - x2)
        * (y2 - y1))) by (nonlinear_arith);
}

} // verus!
