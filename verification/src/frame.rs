//! The frame counter's rule: count every frame, and once at least a whole
//! second has passed since the last report, report the count and start over.

use vstd::prelude::*;

verus! {

/// The counter after one more frame, and the count to report, if a whole
/// second has passed since the last report.
pub open spec fn counted(fps_count: u32, whole_secs: u64) -> (u32, Option<u32>) {
    if whole_secs >= 1 {
        (0, Some((fps_count + 1) as u32))
    } else {
        ((fps_count + 1) as u32, None)
    }
}

/// Counts a frame; `whole_secs` is the number of whole seconds since the
/// last report.
pub fn count_frame(fps_count: u32, whole_secs: u64) -> (r: (u32, Option<u32>))
    requires
        fps_count < u32::MAX,
    ensures
        r == counted(fps_count, whole_secs),
{
    let fps_count = fps_count + 1;
    if whole_secs >= 1 {
        (0, Some(fps_count))
    } else {
        (fps_count, None)
    }
}

} // verus!
