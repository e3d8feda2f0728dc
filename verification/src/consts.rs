use vstd::prelude::*;

verus! {

/// Edge not currently 'owning' a solution
pub const UNASSIGNED: i64 = -1;

/// Edge that would otherwise close a path
pub const SKIP: i64 = -2;

/// The largest coordinate magnitude of the low (32-bit product) range.
pub const LO_RANGE: u64 = 0x3FFFFFFF;

/// The largest coordinate magnitude of the full range.
pub const HI_RANGE: u64 = 0x3FFFFFFFFFFFFFFF;

/// Flag bit of `OutRec::is_hole_open` for a hole.
pub const IS_HOLE: u8 = 0x01;

/// Flag bit of `OutRec::is_hole_open` for an open path.
pub const IS_OPEN: u8 = 0x02;

} // verus!
