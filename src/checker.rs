use vstd::prelude::*;

verus! {

/// Whether the lattice cell `(x, y, z)` belongs to the even texture of a 3-D
/// checker pattern: the sum of the cell coordinates is even.
pub fn checker_is_even(x: i32, y: i32, z: i32) -> (r: bool)
    ensures
        r == ((x as int + y as int + z as int) % 2 == 0),
{
    let sum: i64 = x as i64 + y as i64 + z as i64;
    sum % 2 == 0
}

} // verus!
