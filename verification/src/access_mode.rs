//! Access-capability markers for XDR file handles.
//!
//! A handle is tagged at creation with one of the three modes and keeps it
//! for its whole lifetime; the tag decides at compile time which frame
//! operations the handle exposes.

use vstd::prelude::*;

verus! {

/// Marker for read-only handles: the stream is taken as given and the
/// cursor starts at the beginning.
pub struct Read;

/// Marker for write handles: the stream starts empty.
pub struct Write;

/// Marker for append handles: the stream is taken as given and the cursor
/// starts at its end.
pub struct Append;

/// Closes the set of access modes: only the three markers above implement
/// it, so no capability can be added from outside.
pub trait Sealed {}

impl Sealed for Read {}

impl Sealed for Write {}

impl Sealed for Append {}

/// An access capability, presented as the mode character a stream opener
/// would receive: `b'r'`, `b'w'` or `b'a'`.
pub trait XDRAccessMode: Sealed {
    spec fn spec_mode() -> u8;

    fn mode_char() -> (c: u8)
        ensures
            c == Self::spec_mode(),
    ;
}

impl XDRAccessMode for Read {
    open spec fn spec_mode() -> u8 {
        114u8
    }

    fn mode_char() -> (c: u8) {
        114u8
    }
}

impl XDRAccessMode for Write {
    open spec fn spec_mode() -> u8 {
        119u8
    }

    fn mode_char() -> (c: u8) {
        119u8
    }
}

impl XDRAccessMode for Append {
    open spec fn spec_mode() -> u8 {
        97u8
    }

    fn mode_char() -> (c: u8) {
        97u8
    }
}

/// Marker for the write-capable modes. Write-only frame operations are
/// defined only for handles whose mode carries this capability.
pub trait Writable: XDRAccessMode {

}

impl Writable for Write {

}

impl Writable for Append {

}

} // verus!
