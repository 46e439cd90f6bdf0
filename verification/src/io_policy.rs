//! The two platform carve-outs of byte I/O, kept as pure decisions so the
//! stepping logic stays platform-agnostic and the caller's I/O loop only
//! injects a flag.

use vstd::prelude::*;

verus! {

/// Whether an output byte is written.  A text-only output sink rejects
/// non-text byte sequences, so on such a sink byte values of 128 and
/// above are silently dropped; on every other sink all byte values
/// 0 through 255 are written verbatim.
pub fn output_permitted(text_only: bool, value: u8) -> (r: bool)
    ensures
        r == (!text_only || value < 128),
{
    !text_only || value < 128
}

/// Whether an input byte is kept.  Where two-character line endings are
/// interpreted as single characters, a carriage return is discarded and
/// the read retried; everywhere else every byte is kept.
pub fn input_retained(strip_cr: bool, value: u8) -> (r: bool)
    ensures
        r == (!strip_cr || value != 13),
{
    !strip_cr || value != 13
}

} // verus!
