//! Driver for the PROMdate ROM dumper: the line protocol spoken over its
//! serial port, the parsing of its replies, and chip selection by name.

pub mod dumper;
pub mod link;
pub mod promdate;
pub mod text;

use vstd::prelude::*;

verus! {

/// The serial device that the dumper usually appears as.
pub fn default_port_name() -> (r: &'static str)
    ensures
        r@ == "/dev/ttyACM0"@,
{
    "/dev/ttyACM0"
}

} // verus!
