use vstd::prelude::*;

verus! {

/// The unit sphere centred at the origin of object space.
#[derive(Clone, Copy, Debug, PartialEq, Eq, Structural)]
pub struct Sphere {}

impl Sphere {
    pub fn new() -> (r: Sphere)
        ensures
            r == (Sphere {}),
    {
        Sphere {}
    }
}

/// The xz-plane through the origin of object space.
#[derive(Clone, Copy, Debug, PartialEq, Eq, Structural)]
pub struct Plane {}

impl Plane {
    pub fn new() -> (r: Plane)
        ensures
            r == (Plane {}),
    {
        Plane {}
    }
}

/// The axis-aligned cube with sides at -1 and +1 in object space.
#[derive(Clone, Copy, Debug, PartialEq, Eq, Structural)]
pub struct Cube {}

impl Cube {
    pub fn new() -> (r: Cube)
        ensures
            r == (Cube {}),
    {
        Cube {}
    }
}

/// The geometric variant of a shape.
#[derive(Clone, Copy, Debug, PartialEq, Eq, Structural)]
pub enum ShapeKind {
    Sphere,
    Plane,
    Cube,
    Cylinder,
    Cone,
    Triangle,
    SmoothTriangle,
    Group,
}

/// The identity of a shape: two shapes are the same shape exactly when they
/// have the same variant and the same integer id.
#[derive(Clone, Copy, Debug, PartialEq, Eq, Structural)]
pub struct ShapeKey {
    pub kind: ShapeKind,
    pub id: i32,
}

impl ShapeKey {
    pub fn new(kind: ShapeKind, id: i32) -> (r: ShapeKey)
        ensures
            r.kind == kind,
            r.id == id,
    {
        ShapeKey { kind, id }
    }

    /// Whether `self` and `other` denote the same shape.
    pub fn same_shape(&self, other: &ShapeKey) -> (r: bool)
        ensures
            r <==> (self.kind == other.kind && self.id == other.id),
    {
        self.kind == other.kind && self.id == other.id
    }
}

} // verus!
