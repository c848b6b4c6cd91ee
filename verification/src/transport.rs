//! The serial link to the module.
//!
//! The link is any value that implements the serial traits of `embedded_hal`
//! for bytes. What it delivers and whether it fails is for the link to say:
//! nothing is claimed here of either.

use vstd::prelude::*;
use embedded_hal::serial::{Read, Write};

verus! {

/// Reads one byte from the link, and asks again for as long as the link says
/// that none is ready.
///
/// This is `embedded_hal::serial::Read::read`, called as `nb::block!` calls
/// it: `nb::Error::WouldBlock` is answered by another call, a byte is handed
/// back, and `nb::Error::Other` comes back as `Err` without the link's own
/// error value. It does not return while the link keeps saying that it is not
/// ready. Nothing is claimed of what comes back.
#[verifier::external_body]
pub(crate) fn read_blocking<S>(serial: &mut S) -> (r: Result<u8, ()>) where S: Read<u8> {
    loop {
        match serial.read() {
            Ok(byte) => return Ok(byte),
            Err(nb::Error::WouldBlock) => {},
            Err(nb::Error::Other(_)) => return Err(()),
        }
    }
}

/// Writes one byte to the link, and tries again for as long as the link says
/// that it cannot take it yet.
///
/// This is `embedded_hal::serial::Write::write`, called as `nb::block!` calls
/// it: `nb::Error::WouldBlock` is answered by another call with the same
/// byte, success is handed back, and `nb::Error::Other` comes back as `Err`
/// without the link's own error value. It does not return while the link
/// keeps saying that it is not ready. Nothing is claimed of what comes back.
#[verifier::external_body]
pub(crate) fn write_blocking<S>(serial: &mut S, byte: u8) -> (r: Result<(), ()>) where
    S: Write<u8>,
 {
    loop {
        match serial.write(byte) {
            Ok(()) => return Ok(()),
            Err(nb::Error::WouldBlock) => {},
            Err(nb::Error::Other(_)) => return Err(()),
        }
    }
}

} // verus!
