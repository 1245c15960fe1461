use vstd::prelude::*;

verus! {

/// The pattern that colours a point by its own pattern-space coordinates,
/// used to observe the transformations applied before a pattern is read.
#[derive(Clone, Copy, Debug, PartialEq, Eq, Structural)]
pub struct TestPattern {}

impl TestPattern {
    pub fn new() -> (r: TestPattern)
        ensures
            r == (TestPattern {}),
    {
        TestPattern {}
    }
}

/// Whether the band with integer index `n` (the floor of a coordinate, or of a
/// distance) takes a pattern's first colour: exactly the even bands do.
pub fn is_first_band(n: i64) -> (r: bool)
    ensures
        r == (n as int % 2 == 0),
{
    n % 2 == 0
}

/// Whether the unit cell with integer corner `(x, y, z)` (the floors of a
/// point's coordinates) takes a checker pattern's first colour: exactly the
/// cells whose coordinate sum is even do.
pub fn is_first_cell(x: i64, y: i64, z: i64) -> (r: bool)
    ensures
        r == ((x as int + y as int + z as int) % 2 == 0),
{
    let odd = (x % 2 != 0) as u8 + (y % 2 != 0) as u8 + (z % 2 != 0) as u8;
    proof {
        assert((x % 2 != 0) == (x as int % 2 != 0));
        assert((y % 2 != 0) == (y as int % 2 != 0));
        assert((z % 2 != 0) == (z as int % 2 != 0));
        assert(((x as int + y as int + z as int) % 2 == 0) == (((x as int % 2) + (y as int % 2) + (z as int
            % 2)) % 2 == 0)) by (nonlinear_arith);
    }
    odd % 2 == 0
}

} // verus!
