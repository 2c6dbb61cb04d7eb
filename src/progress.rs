use vstd::prelude::*;

verus! {

/// Whether the row-by-row renderer reports after finishing row `row`: every
/// `debug_frequency` rows, never when the frequency is zero.
pub fn row_report_due(row: u32, debug_frequency: u8) -> (r: bool)
    requires
        row < u32::MAX,
    ensures
        r == (debug_frequency != 0 && (row as int + 1) % (debug_frequency as int) == 0),
{
    debug_frequency != 0 && (row + 1) % (debug_frequency as u32) == 0
}

/// For the parallel renderer, which counts finished pixels: when `pixels_done`
/// closes a full line of `width` pixels and the number of full lines is a
/// multiple of `debug_frequency`, that number of lines; else nothing.
pub fn pixel_report_due(pixels_done: u32, width: u32, debug_frequency: u8) -> (r: Option<u32>)
    requires
        width > 0,
    ensures
        r is Some <==> (debug_frequency != 0 && pixels_done % width == 0
            && (pixels_done / width) % (debug_frequency as u32) == 0),
        r is Some ==> r->0 == pixels_done / width,
{
    if debug_frequency != 0 && pixels_done % width == 0 && (pixels_done / width) % (debug_frequency as u32) == 0 {
        Some(pixels_done / width)
    } else {
        None
    }
}

} // verus!
