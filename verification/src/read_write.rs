//! Traits and adapters for types that carry up to two I/O objects, one
//! for reading and one for writing.

use vstd::prelude::*;

verus! {

/// A raw file descriptor value.
pub type RawFd = i32;

/// Access to the raw descriptors of a type which may have one or two of
/// them, for reading and writing.  A type with a single descriptor returns
/// the same value from both methods.
pub trait AsRawReadWriteFd {
    /// Extracts the raw descriptor used for reading.
    fn as_raw_read_fd(&self) -> RawFd;

    /// Extracts the raw descriptor used for writing.
    fn as_raw_write_fd(&self) -> RawFd;
}

/// Adapts an [`AsRawReadWriteFd`] implementation to a single-descriptor
/// view onto its reading half.
#[derive(Clone, Copy, Debug)]
pub struct ReadHalf<'a, RW>(pub &'a RW);

impl<'a, RW> ReadHalf<'a, RW> {
    /// Returns a new instance of `Self`.
    pub fn new(rw: &'a RW) -> (r: Self)
        ensures
            r.0 == rw,
    {
        ReadHalf(rw)
    }
}

impl<'a, RW: AsRawReadWriteFd> ReadHalf<'a, RW> {
    /// The raw descriptor of this half: the wrapped type's reading one.
    pub fn as_raw_fd(&self) -> RawFd {
        self.0.as_raw_read_fd()
    }
}

/// Adapts an [`AsRawReadWriteFd`] implementation to a single-descriptor
/// view onto its writing half.
#[derive(Clone, Copy, Debug)]
pub struct WriteHalf<'a, RW>(pub &'a RW);

impl<'a, RW> WriteHalf<'a, RW> {
    /// Returns a new instance of `Self`.
    pub fn new(rw: &'a RW) -> (r: Self)
        ensures
            r.0 == rw,
    {
        WriteHalf(rw)
    }
}

impl<'a, RW: AsRawReadWriteFd> WriteHalf<'a, RW> {
    /// The raw descriptor of this half: the wrapped type's writing one.
    pub fn as_raw_fd(&self) -> RawFd {
        self.0.as_raw_write_fd()
    }
}

} // verus!
