//! Integer polygon geometry for a polygon clipper that extends Bala Vatti's
//! clipping algorithm: point types, exact orientation and point-in-polygon
//! tests, the edge and output records of the clipping engine, and the tree
//! of result polygons.
//!
//! Links between records are indices into the arrays that own them.

pub mod clipper;
pub mod consts;
pub mod edge;
pub mod int128;
pub mod node;
pub mod outpt;
pub mod path;
pub mod point;

use vstd::prelude::*;

pub use edge::{Edge, IntersectNode, LocalMinimum};
pub use node::{PolyNode, PolyTree};
pub use outpt::{is_point_in_out_pt, point_is_vertex, poly2_contains_poly1, Join, OutPt, OutRec};
pub use path::{is_point_in_path, Path, Paths};
pub use point::{CInt, IntPoint, IntPoint2d, IntPoint3d};

verus! {

#[derive(PartialEq, Eq, Structural, Copy, Clone, Debug)]
pub enum Direction {
    RightToLeft,
    LeftToRight,
}

#[derive(PartialEq, Eq, Structural, Copy, Clone, Debug)]
pub enum ClipType {
    Intersection,
    Union,
    Difference,
    Xor,
}

#[derive(PartialEq, Eq, Structural, Copy, Clone, Debug)]
pub enum PolyType {
    Subject,
    Clip,
}

/// By far the most widely used winding rules for polygon filling are
/// EvenOdd & NonZero (GDI, GDI+, XLib, OpenGL, Cairo, AGG, Quartz, SVG, Gr32).
/// Others rules include Positive, Negative and ABS_GTR_EQ_TWO (only in OpenGL).
#[derive(PartialEq, Eq, Structural, Copy, Clone, Debug)]
pub enum PolyFillType {
    EvenOdd,
    NonZero,
    Positive,
    Negative,
}

#[derive(PartialEq, Eq, Structural, Copy, Clone, Debug)]
pub enum InitOptions {
    ReverseSolution,
    StrictlySimple,
    PreserveCollinear,
}

#[derive(PartialEq, Eq, Structural, Copy, Clone, Debug)]
pub enum JoinType {
    Square,
    Round,
    Miter,
}

#[derive(PartialEq, Eq, Structural, Copy, Clone, Debug)]
pub enum EndType {
    ClosedPolygon,
    ClosedLine,
    OpenButt,
    OpenSquare,
    OpenRound,
}

#[derive(PartialEq, Eq, Structural, Copy, Clone, Debug)]
pub enum EdgeSide {
    Left,
    Right,
}

/// The position of a node in the node pool of a `PolyTree`.
#[derive(Debug, Copy, Clone, PartialEq, Eq, Structural)]
pub struct PolyNodeIndex {
    pub(crate) node_idx: usize,
}

impl View for PolyNodeIndex {
    type V = usize;

    closed spec fn view(&self) -> usize {
        self.node_idx
    }
}

impl PolyNodeIndex {
    pub fn new(node_idx: usize) -> (r: Self)
        ensures
            r@ == node_idx,
    {
        PolyNodeIndex { node_idx }
    }

    pub fn index(&self) -> (r: usize)
        ensures
            r == self@,
    {
        self.node_idx
    }
}

/// The position of an edge in the edge pool of a `PolyTree`.
#[derive(Debug, Copy, Clone, PartialEq, Eq, Structural)]
pub struct EdgeIndex {
    pub(crate) edge_idx: usize,
}

impl View for EdgeIndex {
    type V = usize;

    closed spec fn view(&self) -> usize {
        self.edge_idx
    }
}

impl EdgeIndex {
    pub fn new(edge_idx: usize) -> (r: Self)
        ensures
            r@ == edge_idx,
    {
        EdgeIndex { edge_idx }
    }

    pub fn index(&self) -> (r: usize)
        ensures
            r == self@,
    {
        self.edge_idx
    }
}

/// An axis-aligned rectangle.
pub struct IntRect {
    pub left: isize,
    pub top: isize,
    pub right: isize,
    pub bottom: isize,
}

} // verus!
