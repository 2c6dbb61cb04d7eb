use vstd::prelude::*;

verus! {

/// The bounce budget left after one more bounce, or `None` when the budget
/// is spent: a ray traced with depth zero carries no light at all.
pub fn next_depth(depth: u16) -> (r: Option<u16>)
    ensures
        depth == 0 <==> r is None,
        r is Some ==> r->0 == depth - 1,
{
    if depth == 0 {
        None
    } else {
        Some(depth - 1)
    }
}

} // verus!
