use vstd::prelude::*;

verus! {

/// The positions, in `len` values sorted in ascending order, of the values
/// whose mean is their median: the middle one when `len` is odd, the two
/// middle ones when it is even.
pub fn median_positions(len: usize) -> (positions: (usize, usize))
    requires
        len > 0,
    ensures
        len % 2 == 1 ==> positions == (len / 2, len / 2),
        len % 2 == 0 ==> positions == ((len / 2 - 1) as usize, len / 2),
{
    if len % 2 == 1 {
        (len / 2, len / 2)
    } else {
        (len / 2 - 1, len / 2)
    }
}

} // verus!
