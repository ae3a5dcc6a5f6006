use vstd::prelude::*;

verus! {

/// Lower end of the observation window around `center`: two cells before it,
/// clipped at the grid edge.
pub open spec fn centered_lo(center: int) -> int {
    if center < 2 {
        0
    } else {
        center - 2
    }
}

/// Upper end (exclusive) of the observation window around `center`: two cells
/// past it, clipped at `limit`.
pub open spec fn centered_hi(center: int, limit: int) -> int {
    if center + 2 >= limit {
        limit
    } else {
        center + 3
    }
}

/// The half-open index range of the observation window centred on `center`,
/// clipped to `0..limit`.
pub fn centered_range(center: usize, limit: usize) -> (r: (usize, usize))
    ensures
        r.0 == centered_lo(center as int),
        r.1 == centered_hi(center as int, limit as int),
        r.0 <= r.1 || r.0 >= limit,
{
    let start = if center < 2 {
        0
    } else {
        center - 2
    };
    let end = if limit <= center || limit - center <= 2 {
        limit
    } else {
        center + 3
    };
    (start, end)
}

} // verus!
