//! The boundary between the verified transcoding logic and the native
//! platform: handle values, the error taxonomy, and the [`Console`] trait
//! through which every native primitive is reached.

use vstd::prelude::*;

verus! {

/// Identifier under which the native standard input handle is looked up.
pub const STD_INPUT_HANDLE: u32 = 0xFFFF_FFF6;

/// Identifier under which the native standard output handle is looked up.
pub const STD_OUTPUT_HANDLE: u32 = 0xFFFF_FFF5;

/// Identifier under which the native standard error handle is looked up.
pub const STD_ERROR_HANDLE: u32 = 0xFFFF_FFF4;

/// Raw value of the native "invalid handle" sentinel.
pub const INVALID_HANDLE_RAW: usize = usize::MAX;

/// Native error code reported when a standard handle slot is empty.
pub const ERROR_INVALID_HANDLE: i32 = 6;

/// A native stream handle, carried as a plain value.  The adapter neither
/// opens nor closes anything; a handle is only passed back to the native
/// primitives it came from.
#[derive(Clone, Copy, PartialEq, Eq, Structural, Debug)]
pub struct Handle {
    /// The raw native handle value.
    pub raw: usize,
}

impl Handle {
    /// A handle the native layer will accept: neither the invalid-handle
    /// sentinel nor null.
    pub open spec fn is_valid(self) -> bool {
        self.raw != INVALID_HANDLE_RAW && self.raw != 0
    }
}

/// Everything a read or write call can fail with.
#[derive(Clone, Copy, PartialEq, Eq, Structural, Debug)]
pub enum StreamError {
    /// Writing: the input begins with no valid UTF-8 byte at all.
    /// Reading: the code units received contain an unpaired surrogate
    /// that the carry-over slot could not absorb.
    InvalidData,
    /// Reading: the destination buffer is too small to guarantee room for
    /// one arbitrary character.
    InvalidInput,
    /// A native call failed; the platform error code is carried verbatim.
    Os(i32),
}

/// The native primitives the adapter builds on.  Each method is one native
/// call; none of them transcodes anything.  The write and read primitives
/// may do less work than asked — accept fewer code units, return fewer —
/// but each is tied to the model of the console's state: code units a
/// write reports accepted extend the `accepted_units` transcript, and
/// code units a read delivers are consumed in order from the
/// `input_units` stream.  How many a call moves stays the native side's
/// choice, so the verified callers must cope with every count these
/// contracts allow.
pub trait Console {
    /// Whether a handle is in console mode in the current state: the
    /// classification `is_console` reports.
    spec fn console_mode(&self, handle: Handle) -> bool;

    /// The handle currently installed for a standard stream identifier.
    /// The host process may reinstall handles at any time, which this
    /// model carries as a change of the `Console` value itself.
    spec fn handle_of(&self, handle_id: u32) -> Handle;

    /// The code units the console has reported durably accepted so far,
    /// oldest first: the transcript that console writes extend.  A call
    /// that fails reports nothing accepted.  The default stands for an
    /// implementation whose transcript is not modelled, which can then
    /// only ever report zero units accepted.
    open spec fn accepted_units(&self) -> Seq<u16> {
        Seq::empty()
    }

    /// The code units the console has yet to serve to reads, front
    /// first: reads consume this stream in order.  The default stands
    /// for an implementation whose input is not modelled, which can
    /// then only ever serve zero units.
    open spec fn input_units(&self) -> Seq<u16> {
        Seq::empty()
    }

    /// Queries console mode on a handle.  A pure probe: repeating it in an
    /// unchanged state returns the same answer.
    fn is_console(&self, handle: Handle) -> (r: bool)
        ensures
            r == self.console_mode(handle),
    ;

    /// Looks up the handle currently installed for a standard stream
    /// identifier.  Never fails by itself; an empty or poisoned slot is
    /// reported through the returned value and classified by the caller.
    fn std_handle(&self, handle_id: u32) -> (h: Handle)
        ensures
            h == self.handle_of(handle_id),
    ;

    /// The error code of the most recent failed native call.
    fn last_error_code(&self) -> (code: i32);

    /// Writes code units `units[from..to]` to a console handle.  May
    /// accept any shorter prefix; the count reported is what was durably
    /// accepted, and exactly those units extend the transcript.  A
    /// failed call reports nothing accepted.
    fn write_console_units(&mut self, handle: Handle, units: &[u16], from: usize, to: usize) -> (r:
        Result<usize, i32>)
        requires
            from <= to <= units@.len(),
        ensures
            r matches Ok(n) ==> n <= to - from,
            r matches Ok(n) ==> final(self).accepted_units() == old(self).accepted_units()
                + units@.subrange(from as int, from + n),
            r matches Ok(n) ==> final(self).input_units() == old(self).input_units(),
            r is Err ==> final(self).accepted_units() == old(self).accepted_units()
                && final(self).input_units() == old(self).input_units(),
    ;

    /// Reads up to `end - start` code units from a console handle into
    /// `buf[start..end]`: the units delivered are the front of the
    /// input stream, consumed in order.  Slots outside the filled range
    /// keep their contents; a failed call delivers and consumes
    /// nothing.
    fn read_console_units(&mut self, handle: Handle, buf: &mut Vec<u16>, start: usize, end: usize) -> (r:
        Result<usize, i32>)
        requires
            start <= end <= old(buf)@.len(),
        ensures
            final(buf)@.len() == old(buf)@.len(),
            forall|i: int| 0 <= i < start ==> final(buf)@[i] == old(buf)@[i],
            r matches Ok(n) ==> n <= end - start,
            r matches Ok(n) ==> forall|i: int|
                start + n <= i < final(buf)@.len() ==> final(buf)@[i] == old(buf)@[i],
            r matches Ok(n) ==> n <= old(self).input_units().len(),
            r matches Ok(n) ==> final(buf)@.subrange(start as int, start + n)
                == old(self).input_units().take(n as int),
            r matches Ok(n) ==> final(self).input_units() == old(self).input_units().skip(
                n as int),
            r matches Ok(n) ==> final(self).accepted_units() == old(self).accepted_units(),
            r is Err ==> final(self).input_units() == old(self).input_units()
                && final(self).accepted_units() == old(self).accepted_units(),
    ;

    /// Writes raw bytes to a redirected (non-console) handle.
    fn write_bytes(&mut self, handle: Handle, data: &[u8]) -> (r: Result<usize, i32>)
        ensures
            r matches Ok(n) ==> n <= data@.len(),
    ;

    /// Reads raw bytes from a redirected (non-console) handle into a
    /// prefix of `buf`.
    fn read_bytes(&mut self, handle: Handle, buf: &mut Vec<u8>) -> (r: Result<usize, i32>)
        ensures
            final(buf)@.len() == old(buf)@.len(),
            r matches Ok(n) ==> n <= final(buf)@.len(),
            r matches Ok(n) ==> forall|i: int|
                n <= i < final(buf)@.len() ==> final(buf)@[i] == old(buf)@[i],
    ;
}

} // verus!
