use vstd::prelude::*;

verus! {

/// Command-line options of the viewers: the serial port and its baud rate.
pub struct Args {
    pub port: String,
    pub baud: u32,
}

/// Baud rate used when none is given.
pub const DEFAULT_BAUD: u32 = 115200;

} // verus!
