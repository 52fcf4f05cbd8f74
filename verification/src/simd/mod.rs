//! Checksum and byte-buffer primitives shared by the codecs.

pub mod crc32;
pub mod memops;

use vstd::prelude::*;
use vstd::string::*;

verus! {

/// Report on the hardware acceleration in use: none, since the checksum
/// is always computed by the table-driven routine.
pub fn acceleration_report() -> (report: String)
    ensures
        report@ == "No hardware acceleration detected"@,
{
    String::from_str("No hardware acceleration detected")
}

} // verus!
