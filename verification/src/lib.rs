//! A byte-stream adapter for native consoles whose read and write calls
//! speak UTF-16 while every caller speaks UTF-8.
//!
//! The heart of the crate is the transcoding pair in [`stdio`]: a write
//! path that turns a UTF-8 byte slice into UTF-16 code units, hands them to
//! the native write primitive and accounts, byte for byte, for the prefix
//! the native call actually accepted; and a read path that pulls UTF-16
//! code units from the native read primitive, decodes them into the
//! caller's byte buffer, and carries an unpaired trailing high surrogate
//! over to the next read instead of failing on it.
//!
//! The native primitives themselves — the console-mode query, the code-unit
//! read and write calls, and the raw byte pass-through used when a stream
//! is redirected — are reached through the [`console::Console`] trait, so
//! the transcoding logic is independent of any one platform binding and can
//! be driven deterministically by the scripted implementation in
//! [`loopback`].

pub mod codec;
pub mod console;
pub mod loopback;
pub mod owns_raw;
pub mod read_write;
pub mod stdio;
