use vstd::prelude::*;

verus! {

/// The smallest size of a cell on screen that zooming out reaches.
pub const MIN_PIXEL_LENGTH: u32 = 2;

/// The new size of a cell on screen after the zoom keys: zooming out alone (`out`) shrinks
/// it by one unless it is at its smallest, zooming in alone (`into`) grows it by one, and
/// otherwise nothing changes (`None`).
pub fn zoom(pixel_length: u32, out: bool, into: bool) -> (r: Option<u32>)
    requires
        out && !into && pixel_length != MIN_PIXEL_LENGTH ==> pixel_length > 0,
        into && !out ==> pixel_length < u32::MAX,
    ensures
        r == if out && !into && pixel_length != MIN_PIXEL_LENGTH {
            Some((pixel_length - 1) as u32)
        } else if into && !out {
            Some((pixel_length + 1) as u32)
        } else {
            None::<u32>
        },
{
    if out && !into && pixel_length != MIN_PIXEL_LENGTH {
        Some(pixel_length - 1)
    } else if into && !out {
        Some(pixel_length + 1)
    } else {
        None
    }
}

} // verus!
