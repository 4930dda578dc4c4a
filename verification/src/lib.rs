use vstd::prelude::*;

pub mod decode;
pub mod encode;
pub mod laws;
pub mod model;

verus! {

/// Start-of-frame marker byte.
pub const STX_CHAR: u8 = 0x02;

/// End-of-frame marker byte.
pub const ETX_CHAR: u8 = 0x03;

/// Data-link-escape byte, used to stuff reserved bytes into the payload.
pub const DLE_CHAR: u8 = 0x10;

/// Carriage return, optionally escaped in the escaped mode.
pub const CR_CHAR: u8 = 0x0d;

/// This struct is used to create a DleEncoder instance. It can also
/// be used to configure the encoder
#[derive(Copy, Clone)]
pub struct DleEncoder {
    /// Configure whether the encoder uses the escaped or non-escaped mode
    pub escape_stx_etx: bool,
    /// It is possible to escape CR characters as well in the escaped mode
    pub escape_cr: bool,
    /// Configure the encoder to not add STX and ETX characters at the start
    /// and end when encoding
    pub add_stx_etx: bool,
}

#[derive(Debug, PartialEq, Eq, Structural)]
pub enum DleError {
    StreamTooShort,
    DecodingError,
}

impl Default for DleEncoder {
    fn default() -> (c: DleEncoder)
        ensures
            c == (DleEncoder { escape_stx_etx: true, escape_cr: false, add_stx_etx: true }),
    {
        DleEncoder { escape_stx_etx: true, escape_cr: false, add_stx_etx: true }
    }
}

} // verus!
