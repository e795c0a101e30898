use vstd::prelude::*;
use crate::error::TrackError;

verus! {

/// The number of bins that a window of `window_bp` base pairs spans on a track
/// of the given resolution: the floor of the quotient, raised by one where it
/// is even.
pub open spec fn window_bins(window_bp: int, resolution: int) -> int
    recommends
        resolution > 0,
{
    let bins = window_bp / resolution;
    if bins % 2 == 0 {
        bins + 1
    } else {
        bins
    }
}

/// Half of a window of `w` bins, the centre bin left out.
pub open spec fn half_width(w: int) -> int {
    (w - 1) / 2
}

/// A resolved window is odd and holds at least one bin, so it has a centre bin
/// with `half_width` bins on either side.
pub proof fn lemma_window_bins_odd(window_bp: int, resolution: int)
    requires
        window_bp >= 0,
        resolution > 0,
    ensures
        window_bins(window_bp, resolution) >= 1,
        window_bins(window_bp, resolution) % 2 == 1,
        window_bins(window_bp, resolution) == 2 * half_width(window_bins(window_bp, resolution))
            + 1,
        window_bp / resolution <= window_bins(window_bp, resolution) <= window_bp / resolution
            + 1,
{
    assert(window_bp / resolution >= 0) by (nonlinear_arith)
        requires
            window_bp >= 0,
            resolution > 0,
    ;
}

/// Turns a window size in base pairs into an odd number of bins.
pub fn resolve_window(window_bp: usize, resolution: usize) -> (r: Result<usize, TrackError>)
    requires
        resolution > 0,
    ensures
        window_bins(window_bp as int, resolution as int) >= 1 ==> r == Ok::<usize, TrackError>(
            window_bins(window_bp as int, resolution as int) as usize,
        ),
        window_bins(window_bp as int, resolution as int) < 1 ==> r == Err::<usize, TrackError>(
            TrackError::WindowTooSmall,
        ),
        r is Ok ==> r->Ok_0 as int == window_bins(window_bp as int, resolution as int),
{
    let mut bins: usize = window_bp / resolution;
    if bins % 2 == 0 {
        bins = bins + 1;
    }
    if bins < 1 {
        return Err(TrackError::WindowTooSmall);
    }
    Ok(bins)
}

} // verus!
