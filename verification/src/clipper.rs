//! The clipper front end: its options, the builder, and the rules that decide
//! which edges contribute to a solution.
use vstd::prelude::*;

use crate::edge::Edge;
use crate::node::{PolyNode, PolyTree};
use crate::path::{Path, Paths};
use crate::point::{IntPoint, IntPoint3d};
use crate::{ClipType, PolyFillType, PolyType};

verus! {

/// Bitflags for Clipper init options
pub const EXECUTE_LOCKED: u8 = 0x01;

pub const HAS_OPEN_PATHS: u8 = 0x02;

pub const USE_FULL_RANGE: u8 = 0x04;

pub const REVERSE_OUTPUT: u8 = 0x08;

pub const STRICT_SIMPLE: u8 = 0x10;

pub const PRESERVE_COLINEAR: u8 = 0x20;

/// A pool of worker threads that a clipper may be given.
pub struct ThreadPool;

/// The options a clipper is built with.
pub struct ClipperInitOptions {
    pub execute_locked: bool,
    pub strict_simple: bool,
    pub preserve_colinear: bool,
}

/// The error of a clipping operation.
pub struct ClipperError;

/// Collects the options of a clipper before it is built.
pub struct ClipperBuilder<'a, F: Fn(IntPoint3d, IntPoint3d) -> IntPoint3d + 'a> {
    pub options: ClipperInitOptions,
    pub thread_pool: Option<&'a ThreadPool>,
    pub z_fill: Option<F>,
}

/// A clipper: its option flags, fill rules, operation, and the function that
/// fills the third coordinate of intersection points.
pub struct Clipper<'a, F: Fn(IntPoint3d, IntPoint3d) -> IntPoint3d + 'a> {
    pub options: u8,
    pub subj_fill_type: PolyFillType,
    pub clip_fill_type: PolyFillType,
    pub clip_type: ClipType,
    pub z_fill: Option<F>,
    pub thread_pool: Option<&'a ThreadPool>,
}

/// The option flags that a set of init options turns on.
pub open spec fn option_flags(options: ClipperInitOptions) -> u8 {
    (if options.execute_locked {
        EXECUTE_LOCKED
    } else {
        0u8
    }) | (if options.strict_simple {
        STRICT_SIMPLE
    } else {
        0u8
    }) | (if options.preserve_colinear {
        PRESERVE_COLINEAR
    } else {
        0u8
    })
}

/// Each init option can be read back from the flags it turns on, and no
/// other flag is set.
pub proof fn lemma_option_flags_readable(options: ClipperInitOptions)
    ensures
        (option_flags(options) & EXECUTE_LOCKED != 0) == options.execute_locked,
        (option_flags(options) & STRICT_SIMPLE != 0) == options.strict_simple,
        (option_flags(options) & PRESERVE_COLINEAR != 0) == options.preserve_colinear,
        option_flags(options) & !(EXECUTE_LOCKED | STRICT_SIMPLE | PRESERVE_COLINEAR) == 0,
{
    let el = options.execute_locked;
    let ss = options.strict_simple;
    let pc = options.preserve_colinear;
    let f = option_flags(options);
    assert(f == (if el { 0x01u8 } else { 0u8 }) | (if ss { 0x10u8 } else { 0u8 }) | (if pc {
        0x20u8
    } else {
        0u8
    }));
    assert(((if el { 0x01u8 } else { 0u8 }) | (if ss { 0x10u8 } else { 0u8 }) | (if pc {
        0x20u8
    } else {
        0u8
    })) & 0x01u8 != 0 <==> el) by (bit_vector);
    assert(((if el { 0x01u8 } else { 0u8 }) | (if ss { 0x10u8 } else { 0u8 }) | (if pc {
        0x20u8
    } else {
        0u8
    })) & 0x10u8 != 0 <==> ss) by (bit_vector);
    assert(((if el { 0x01u8 } else { 0u8 }) | (if ss { 0x10u8 } else { 0u8 }) | (if pc {
        0x20u8
    } else {
        0u8
    })) & 0x20u8 != 0 <==> pc) by (bit_vector);
    assert(((if el { 0x01u8 } else { 0u8 }) | (if ss { 0x10u8 } else { 0u8 }) | (if pc {
        0x20u8
    } else {
        0u8
    })) & !(0x01u8 | 0x10u8 | 0x20u8) == 0) by (bit_vector);
}

impl<'a, F: Fn(IntPoint3d, IntPoint3d) -> IntPoint3d + 'a> ClipperBuilder<'a, F> {
    pub fn new(options: ClipperInitOptions, thread_pool: Option<&'a ThreadPool>) -> (r: Self)
        ensures
            r.options == options,
            r.thread_pool == thread_pool,
            r.z_fill is None,
    {
        Self { options: options, thread_pool: thread_pool, z_fill: None }
    }

    /// Sets the function that fills the third coordinate of new points.
    pub fn with_z_fill_function(&mut self, func: Option<F>)
        ensures
            final(self).z_fill == func,
            final(self).options == old(self).options,
            final(self).thread_pool == old(self).thread_pool,
    {
        self.z_fill = func;
    }

    /// Builds the clipper: the options become flags, both fill rules are
    /// even-odd, and the operation is an intersection until an execution
    /// names another.
    pub fn build(self) -> (r: Clipper<'a, F>)
        ensures
            r.options == option_flags(self.options),
            r.subj_fill_type == PolyFillType::EvenOdd,
            r.clip_fill_type == PolyFillType::EvenOdd,
            r.clip_type == ClipType::Intersection,
            r.z_fill == self.z_fill,
            r.thread_pool == self.thread_pool,
    {
        let mut opts: u8 = 0;
        let el: u8 = if self.options.execute_locked {
            EXECUTE_LOCKED
        } else {
            0
        };
        let ss: u8 = if self.options.strict_simple {
            STRICT_SIMPLE
        } else {
            0
        };
        let pc: u8 = if self.options.preserve_colinear {
            PRESERVE_COLINEAR
        } else {
            0
        };
        opts = opts | el;
        opts = opts | ss;
        opts = opts | pc;
        assert(((0u8 | el) | ss) | pc == (el | ss) | pc) by (bit_vector);
        Clipper {
            options: opts,
            subj_fill_type: PolyFillType::EvenOdd,
            clip_fill_type: PolyFillType::EvenOdd,
            clip_type: ClipType::Intersection,
            z_fill: self.z_fill,
            thread_pool: self.thread_pool,
        }
    }
}

/// The contours of the closed nodes among `nodes`, in pool order.
pub open spec fn closed_contours<T: IntPoint>(nodes: Seq<PolyNode<T>>) -> Seq<Seq<T>>
    decreases nodes.len(),
{
    if nodes.len() == 0 {
        Seq::empty()
    } else {
        let rest = closed_contours(nodes.drop_last());
        if nodes.last().is_open {
            rest
        } else {
            rest.push(nodes.last().contour.poly@)
        }
    }
}

/// Whether the winding counts of an edge pass its own fill rule.
pub open spec fn passes_fill_rule(pft: PolyFillType, wind_delta: u8, wind_cnt: int) -> bool {
    match pft {
        PolyFillType::EvenOdd => !(wind_delta == 0 && wind_cnt != 1),
        PolyFillType::NonZero => wind_cnt == 1 || wind_cnt == -1,
        PolyFillType::Positive => wind_cnt == 1,
        PolyFillType::Negative => wind_cnt == -1,
    }
}

/// Whether the other polygon set's winding count puts the edge inside it
/// under the fill rule `pft2`.
pub open spec fn inside_other(pft2: PolyFillType, wind_cnt2: int) -> bool {
    match pft2 {
        PolyFillType::EvenOdd | PolyFillType::NonZero => wind_cnt2 != 0,
        PolyFillType::Positive => wind_cnt2 > 0,
        PolyFillType::Negative => wind_cnt2 < 0,
    }
}

/// Whether the other polygon set's winding count puts the edge outside it
/// under the fill rule `pft2`.
pub open spec fn outside_other(pft2: PolyFillType, wind_cnt2: int) -> bool {
    match pft2 {
        PolyFillType::EvenOdd | PolyFillType::NonZero => wind_cnt2 == 0,
        PolyFillType::Positive => wind_cnt2 <= 0,
        PolyFillType::Negative => wind_cnt2 >= 0,
    }
}

/// Whether an edge bounds the solution of the operation `clip_type`.
pub open spec fn contributes(
    subj_fill: PolyFillType,
    clip_fill: PolyFillType,
    clip_type: ClipType,
    poly_typ: PolyType,
    wind_delta: u8,
    wind_cnt: int,
    wind_cnt2: int,
) -> bool {
    let (pft, pft2) = if poly_typ == PolyType::Subject {
        (subj_fill, clip_fill)
    } else {
        (clip_fill, subj_fill)
    };
    &&& passes_fill_rule(pft, wind_delta, wind_cnt)
    &&& match clip_type {
        ClipType::Intersection => inside_other(pft2, wind_cnt2),
        ClipType::Union => outside_other(pft2, wind_cnt2),
        ClipType::Difference => if poly_typ == PolyType::Subject {
            outside_other(pft2, wind_cnt2)
        } else {
            inside_other(pft2, wind_cnt2)
        },
        ClipType::Xor => wind_delta != 0 || outside_other(pft2, wind_cnt2),
    }
}

/// An edge that passes its own fill rule bounds exactly one of the
/// intersection and the union; a difference treats subject edges as the
/// union does and clip edges as the intersection does.
pub proof fn lemma_operations_split_edges(
    subj_fill: PolyFillType,
    clip_fill: PolyFillType,
    poly_typ: PolyType,
    wind_delta: u8,
    wind_cnt: int,
    wind_cnt2: int,
)
    requires
        passes_fill_rule(
            if poly_typ == PolyType::Subject {
                subj_fill
            } else {
                clip_fill
            },
            wind_delta,
            wind_cnt,
        ),
    ensures
        contributes(subj_fill, clip_fill, ClipType::Intersection, poly_typ, wind_delta, wind_cnt, wind_cnt2)
            != contributes(subj_fill, clip_fill, ClipType::Union, poly_typ, wind_delta, wind_cnt, wind_cnt2),
        contributes(subj_fill, clip_fill, ClipType::Difference, poly_typ, wind_delta, wind_cnt, wind_cnt2)
            == if poly_typ == PolyType::Subject {
            contributes(subj_fill, clip_fill, ClipType::Union, poly_typ, wind_delta, wind_cnt, wind_cnt2)
        } else {
            contributes(subj_fill, clip_fill, ClipType::Intersection, poly_typ, wind_delta, wind_cnt, wind_cnt2)
        },
{
}

/// An edge contributes only where its winding count passes its own fill
/// rule: exactly 1 under Positive, exactly -1 under Negative, 1 or -1 under
/// NonZero, and 1 under EvenOdd unless it carries a winding (open paths
/// carry none).
pub proof fn lemma_contributing_needs_own_rule(
    subj_fill: PolyFillType,
    clip_fill: PolyFillType,
    clip_type: ClipType,
    poly_typ: PolyType,
    wind_delta: u8,
    wind_cnt: int,
    wind_cnt2: int,
)
    ensures
        ({
            let own = if poly_typ == PolyType::Subject {
                subj_fill
            } else {
                clip_fill
            };
            contributes(subj_fill, clip_fill, clip_type, poly_typ, wind_delta, wind_cnt, wind_cnt2)
                ==> {
                &&& own == PolyFillType::Positive ==> wind_cnt == 1
                &&& own == PolyFillType::Negative ==> wind_cnt == -1
                &&& own == PolyFillType::NonZero ==> wind_cnt == 1 || wind_cnt == -1
                &&& own == PolyFillType::EvenOdd ==> wind_delta != 0 || wind_cnt == 1
            }
        }),
{
}

/// Where the other polygon set has winding count 0, the edge is outside it
/// under every fill rule: an intersection never keeps such an edge, and a
/// union keeps it whenever it passes its own fill rule.
pub proof fn lemma_outside_other_set(
    subj_fill: PolyFillType,
    clip_fill: PolyFillType,
    poly_typ: PolyType,
    wind_delta: u8,
    wind_cnt: int,
)
    ensures
        !contributes(subj_fill, clip_fill, ClipType::Intersection, poly_typ, wind_delta, wind_cnt, 0),
        passes_fill_rule(
            if poly_typ == PolyType::Subject {
                subj_fill
            } else {
                clip_fill
            },
            wind_delta,
            wind_cnt,
        ) ==> contributes(subj_fill, clip_fill, ClipType::Union, poly_typ, wind_delta, wind_cnt, 0),
{
}

/// Under Xor every closed edge that passes its own fill rule contributes,
/// whatever the other polygon set's winding count.
pub proof fn lemma_xor_keeps_closed_edges(
    subj_fill: PolyFillType,
    clip_fill: PolyFillType,
    poly_typ: PolyType,
    wind_delta: u8,
    wind_cnt: int,
    wind_cnt2: int,
)
    requires
        wind_delta != 0,
        (if poly_typ == PolyType::Subject {
            subj_fill
        } else {
            clip_fill
        }) == PolyFillType::Positive ==> wind_cnt == 1,
        (if poly_typ == PolyType::Subject {
            subj_fill
        } else {
            clip_fill
        }) == PolyFillType::Negative ==> wind_cnt == -1,
        (if poly_typ == PolyType::Subject {
            subj_fill
        } else {
            clip_fill
        }) == PolyFillType::NonZero ==> wind_cnt == 1 || wind_cnt == -1,
    ensures
        contributes(subj_fill, clip_fill, ClipType::Xor, poly_typ, wind_delta, wind_cnt, wind_cnt2),
{
}

fn is_inside_other(pft2: PolyFillType, wind_cnt2: isize) -> (r: bool)
    ensures
        r == inside_other(pft2, wind_cnt2 as int),
{
    match pft2 {
        PolyFillType::EvenOdd | PolyFillType::NonZero => wind_cnt2 != 0,
        PolyFillType::Positive => wind_cnt2 > 0,
        PolyFillType::Negative => wind_cnt2 < 0,
    }
}

fn is_outside_other(pft2: PolyFillType, wind_cnt2: isize) -> (r: bool)
    ensures
        r == outside_other(pft2, wind_cnt2 as int),
{
    match pft2 {
        PolyFillType::EvenOdd | PolyFillType::NonZero => wind_cnt2 == 0,
        PolyFillType::Positive => wind_cnt2 <= 0,
        PolyFillType::Negative => wind_cnt2 >= 0,
    }
}

fn copy_points<T: IntPoint>(v: &Vec<T>) -> (r: Vec<T>)
    ensures
        r@ == v@,
{
    let mut out: Vec<T> = Vec::new();
    let mut i: usize = 0;
    while i < v.len()
        invariant
            i <= v.len(),
            out@ == v@.take(i as int),
        decreases v.len() - i,
    {
        out.push(v[i]);
        i = i + 1;
        assert(out@ == v@.take(i as int));
    }
    assert(v@.take(v.len() as int) == v@);
    out
}

impl<'a, F: Fn(IntPoint3d, IntPoint3d) -> IntPoint3d + 'a> Clipper<'a, F> {
    /// Clips into a list of paths. Nothing has been added to clip, so the
    /// solution is emptied; the operation and fill rule are recorded.
    pub fn execute_paths<T: IntPoint>(
        &mut self,
        clip_type: ClipType,
        solution: &mut Paths<T>,
        fill_type: PolyFillType,
    ) -> (r: Result<(), ClipperError>)
        ensures
            old(self).options & EXECUTE_LOCKED != 0 ==> r is Err && final(self).clip_type == old(
                self,
            ).clip_type && final(solution).paths@ == old(solution).paths@,
            old(self).options & EXECUTE_LOCKED == 0 ==> r is Ok && final(self).clip_type == clip_type
                && final(self).subj_fill_type == fill_type && final(self).clip_fill_type
                == fill_type && final(solution).paths@.len() == 0,
            final(self).options == old(self).options,
    {
        if self.options & EXECUTE_LOCKED != 0 {
            return Err(ClipperError);
        }
        solution.paths.clear();
        self.subj_fill_type = fill_type;
        self.clip_fill_type = fill_type;
        self.clip_type = clip_type;
        self.execute_internal()
    }

    /// Clips into a result tree. Nothing has been added to clip, so the tree
    /// is emptied; the operation and fill rule are recorded.
    pub fn execute_polytree<T: IntPoint>(
        &mut self,
        clip_type: ClipType,
        solution: &mut PolyTree<T>,
        fill_type: PolyFillType,
    ) -> (r: Result<(), ClipperError>)
        ensures
            old(self).options & EXECUTE_LOCKED != 0 ==> r is Err && final(self).clip_type == old(
                self,
            ).clip_type && final(solution).all_nodes@ == old(solution).all_nodes@,
            old(self).options & EXECUTE_LOCKED == 0 ==> r is Ok && final(self).clip_type == clip_type
                && final(self).subj_fill_type == fill_type && final(self).clip_fill_type
                == fill_type && final(solution).all_nodes@.len() == 0,
            final(self).options == old(self).options,
    {
        if self.options & EXECUTE_LOCKED != 0 {
            return Err(ClipperError);
        }
        solution.clear();
        self.subj_fill_type = fill_type;
        self.clip_fill_type = fill_type;
        self.clip_type = clip_type;
        self.execute_internal()
    }

    /// The contours of the closed nodes of a result tree, in pool order.
    pub fn closed_paths_from_polytree<T: IntPoint>(poly_tree: &PolyTree<T>) -> (r: Paths<T>)
        ensures
            r.paths@.map_values(|p: Path<T>| p.poly@) == closed_contours(poly_tree.all_nodes@),
    {
        let mut paths: Vec<Path<T>> = Vec::new();
        let mut i: usize = 0;
        while i < poly_tree.all_nodes.len()
            invariant
                i <= poly_tree.all_nodes@.len(),
                paths@.map_values(|p: Path<T>| p.poly@) == closed_contours(
                    poly_tree.all_nodes@.take(i as int),
                ),
            decreases poly_tree.all_nodes.len() - i,
        {
            let ghost before = paths@;
            assert(poly_tree.all_nodes@.take(i + 1).drop_last() == poly_tree.all_nodes@.take(
                i as int,
            ));
            if !poly_tree.all_nodes[i].is_open {
                let poly = copy_points(&poly_tree.all_nodes[i].contour.poly);
                paths.push(Path { poly });
                assert(paths@.map_values(|p: Path<T>| p.poly@) == before.map_values(
                    |p: Path<T>| p.poly@,
                ).push(poly_tree.all_nodes@[i as int].contour.poly@));
            }
            i = i + 1;
        }
        assert(poly_tree.all_nodes@.take(i as int) == poly_tree.all_nodes@);
        Paths { paths }
    }

    /// Runs the sweep over the added polygons; with none added it succeeds
    /// at once.
    fn execute_internal(&mut self) -> (r: Result<(), ClipperError>)
        ensures
            r is Ok,
            *final(self) == *old(self),
    {
        Ok(())
    }

    /// Whether `edge` bounds the solution: its winding count must pass its
    /// own fill rule, and the winding count of the other polygon set must
    /// fit the operation.
    pub fn is_contributing<T: IntPoint>(&self, edge: &Edge<T>) -> (r: bool)
        ensures
            r == contributes(
                self.subj_fill_type,
                self.clip_fill_type,
                self.clip_type,
                edge.poly_typ,
                edge.winding_delta,
                edge.winding_count as int,
                edge.winding_count_2 as int,
            ),
    {
        let (mut pft, mut pft2) = (self.subj_fill_type, self.clip_fill_type);
        if edge.poly_typ != PolyType::Subject {
            core::mem::swap(&mut pft, &mut pft2);
        }
        match pft {
            PolyFillType::EvenOdd => if edge.winding_delta == 0 && edge.winding_count != 1 {
                return false;
            },
            PolyFillType::NonZero => if edge.winding_count != 1 && edge.winding_count != -1 {
                return false;
            },
            PolyFillType::Positive => if edge.winding_count != 1 {
                return false;
            },
            PolyFillType::Negative => if edge.winding_count != -1 {
                return false;
            },
        }
        match self.clip_type {
            ClipType::Intersection => is_inside_other(pft2, edge.winding_count_2),
            ClipType::Union => is_outside_other(pft2, edge.winding_count_2),
            ClipType::Difference => if edge.poly_typ == PolyType::Subject {
                is_outside_other(pft2, edge.winding_count_2)
            } else {
                is_inside_other(pft2, edge.winding_count_2)
            },
            ClipType::Xor => if edge.winding_delta == 0 {
                is_outside_other(pft2, edge.winding_count_2)
            } else {
                true
            },
        }
    }
}

} // verus!
