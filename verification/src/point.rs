use vstd::prelude::*;

verus! {

/// The integer type of every coordinate.
pub type CInt = i64;

/// A point with integer coordinates (and an optional third one).
///
/// The spec functions name the coordinates that the getters return and the
/// setters write.
pub trait IntPoint: Copy + Clone + PartialEq + Sized {
    spec fn x_coord(&self) -> CInt;

    spec fn y_coord(&self) -> CInt;

    spec fn z_coord(&self) -> Option<CInt>;

    fn new(x: CInt, y: CInt) -> (r: Self)
        ensures
            r.x_coord() == x,
            r.y_coord() == y,
    ;

    fn get_x(&self) -> (r: CInt)
        ensures
            r == self.x_coord(),
    ;

    fn get_y(&self) -> (r: CInt)
        ensures
            r == self.y_coord(),
    ;

    fn get_z(&self) -> (r: Option<CInt>)
        ensures
            r == self.z_coord(),
    ;

    fn set_x(&mut self, x: CInt)
        ensures
            final(self).x_coord() == x,
            final(self).y_coord() == old(self).y_coord(),
            final(self).z_coord() == old(self).z_coord(),
    ;

    fn set_y(&mut self, y: CInt)
        ensures
            final(self).x_coord() == old(self).x_coord(),
            final(self).y_coord() == y,
            final(self).z_coord() == old(self).z_coord(),
    ;

    fn set_z(&mut self, z: CInt)
        ensures
            final(self).x_coord() == old(self).x_coord(),
            final(self).y_coord() == old(self).y_coord(),
            old(self).z_coord() is Some ==> final(self).z_coord() == Some(z),
            old(self).z_coord() is None ==> final(self).z_coord() is None,
    ;
}

/// Two points are the same point when all their coordinates agree.
pub open spec fn same_point<T: IntPoint>(a: T, b: T) -> bool {
    &&& a.x_coord() == b.x_coord()
    &&& a.y_coord() == b.y_coord()
    &&& a.z_coord() == b.z_coord()
}

/// Tests whether two points have the same coordinates.
pub fn points_equal<T: IntPoint>(a: &T, b: &T) -> (r: bool)
    ensures
        r == same_point(*a, *b),
{
    a.get_x() == b.get_x() && a.get_y() == b.get_y() && a.get_z() == b.get_z()
}

/// A point in the plane.
#[derive(Copy, Clone, PartialEq, Eq, Debug)]
pub struct IntPoint2d {
    pub x: CInt,
    pub y: CInt,
}

impl IntPoint for IntPoint2d {
    open spec fn x_coord(&self) -> CInt {
        self.x
    }

    open spec fn y_coord(&self) -> CInt {
        self.y
    }

    open spec fn z_coord(&self) -> Option<CInt> {
        None
    }

    fn new(x: CInt, y: CInt) -> (r: Self)
        ensures
            r == (IntPoint2d { x: x, y: y }),
    {
        IntPoint2d { x: x, y: y }
    }

    fn get_x(&self) -> (r: CInt) {
        self.x
    }

    fn get_y(&self) -> (r: CInt) {
        self.y
    }

    fn get_z(&self) -> (r: Option<CInt>) {
        None
    }

    fn set_x(&mut self, x: CInt) {
        self.x = x;
    }

    fn set_y(&mut self, y: CInt) {
        self.y = y;
    }

    fn set_z(&mut self, _z: CInt) {
    }
}

/// A point with a third coordinate that the clipping engine carries along.
#[derive(Copy, Clone, PartialEq, Eq, Debug)]
pub struct IntPoint3d {
    pub x: CInt,
    pub y: CInt,
    pub z: CInt,
}

impl IntPoint for IntPoint3d {
    open spec fn x_coord(&self) -> CInt {
        self.x
    }

    open spec fn y_coord(&self) -> CInt {
        self.y
    }

    open spec fn z_coord(&self) -> Option<CInt> {
        Some(self.z)
    }

    fn new(x: CInt, y: CInt) -> (r: Self)
        ensures
            r == (IntPoint3d { x: x, y: y, z: 0 }),
    {
        IntPoint3d { x: x, y: y, z: 0 }
    }

    fn get_x(&self) -> (r: CInt) {
        self.x
    }

    fn get_y(&self) -> (r: CInt) {
        self.y
    }

    fn get_z(&self) -> (r: Option<CInt>) {
        Some(self.z)
    }

    fn set_x(&mut self, x: CInt) {
        self.x = x;
    }

    fn set_y(&mut self, y: CInt) {
        self.y = y;
    }

    fn set_z(&mut self, z: CInt)
        ensures
            final(self).z == z,
    {
        self.z = z;
    }
}

} // verus!
