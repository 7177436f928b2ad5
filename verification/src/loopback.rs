//! A deterministic, in-memory implementation of [`Console`]: code units
//! written are appended to a transcript, code units read are served from a
//! script, and per-call acceptance and service caps let a caller exercise
//! partial writes and reads — including surrogate-splitting boundaries —
//! without a real console device.

use vstd::prelude::*;

use crate::console::{Console, Handle};

verus! {

/// An in-memory console with scripted behaviour.
pub struct ScriptedConsole {
    /// Console mode reported for every handle.
    pub console: bool,
    /// Raw handle value installed for every standard stream identifier.
    pub handle_raw: usize,
    /// Error code reported by `last_error_code`.
    pub error_code: i32,
    /// Code units not yet served to `read_console_units`, front first.
    pub input: Vec<u16>,
    /// Per-call caps on how many units `read_console_units` serves; when
    /// the list is exhausted, calls serve as much as fits.
    pub serve: Vec<usize>,
    /// Per-call caps on how many units `write_console_units` accepts; when
    /// the list is exhausted, calls accept everything.
    pub accept: Vec<usize>,
    /// Code units accepted by `write_console_units` so far.
    pub output: Vec<u16>,
    /// Bytes not yet served to `read_bytes`, front first.
    pub byte_input: Vec<u8>,
    /// Bytes accepted by `write_bytes` so far.
    pub byte_output: Vec<u8>,
}

impl ScriptedConsole {
    /// A console-mode instance with a fixed valid handle, empty scripts
    /// and empty transcripts.
    pub fn new() -> (r: Self)
        ensures
            r.console == true,
            r.handle_raw == 7,
            r.error_code == 0,
            r.input@ =~= Seq::<u16>::empty(),
            r.serve@ =~= Seq::<usize>::empty(),
            r.accept@ =~= Seq::<usize>::empty(),
            r.output@ =~= Seq::<u16>::empty(),
            r.byte_input@ =~= Seq::<u8>::empty(),
            r.byte_output@ =~= Seq::<u8>::empty(),
    {
        ScriptedConsole {
            console: true,
            handle_raw: 7,
            error_code: 0,
            input: Vec::new(),
            serve: Vec::new(),
            accept: Vec::new(),
            output: Vec::new(),
            byte_input: Vec::new(),
            byte_output: Vec::new(),
        }
    }
}

impl Console for ScriptedConsole {
    open spec fn console_mode(&self, handle: Handle) -> bool {
        self.console
    }

    open spec fn handle_of(&self, handle_id: u32) -> Handle {
        Handle { raw: self.handle_raw }
    }

    open spec fn accepted_units(&self) -> Seq<u16> {
        self.output@
    }

    open spec fn input_units(&self) -> Seq<u16> {
        self.input@
    }

    fn is_console(&self, handle: Handle) -> (r: bool) {
        self.console
    }

    fn std_handle(&self, handle_id: u32) -> (h: Handle) {
        Handle { raw: self.handle_raw }
    }

    fn last_error_code(&self) -> (code: i32) {
        self.error_code
    }

    fn write_console_units(&mut self, handle: Handle, units: &[u16], from: usize, to: usize) -> (r:
        Result<usize, i32>) {
        let asked: usize = to - from;
        let cap: usize = if self.accept.len() > 0 {
            self.accept.remove(0)
        } else {
            asked
        };
        let n: usize = if cap < asked {
            cap
        } else {
            asked
        };
        let mut i: usize = 0;
        while i < n
            invariant
                i <= n,
                n <= to - from,
                from + n <= units@.len(),
                self.input@ == old(self).input@,
                self.output@ =~= old(self).output@ + units@.subrange(
                    from as int,
                    from + i as int,
                ),
            decreases n - i,
        {
            self.output.push(*vstd::slice::slice_index_get(units, from + i));
            assert(self.output@ =~= old(self).output@ + units@.subrange(
                from as int,
                from + i + 1 as int,
            ));
            i = i + 1;
        }
        assert(self.output@ == old(self).output@ + units@.subrange(from as int, from + n));
        Ok(n)
    }

    fn read_console_units(&mut self, handle: Handle, buf: &mut Vec<u16>, start: usize, end: usize) -> (r:
        Result<usize, i32>) {
        let asked: usize = end - start;
        let cap: usize = if self.serve.len() > 0 {
            self.serve.remove(0)
        } else {
            asked
        };
        let want: usize = if cap < asked {
            cap
        } else {
            asked
        };
        let n: usize = if self.input.len() < want {
            self.input.len()
        } else {
            want
        };
        let mut i: usize = 0;
        proof {
            assert(self.input@ =~= old(self).input@.skip(0));
        }
        while i < n
            invariant
                i <= n,
                n <= end - start,
                n <= old(self).input@.len(),
                start + n <= buf@.len(),
                buf@.len() == old(buf)@.len(),
                self.input@ =~= old(self).input@.skip(i as int),
                self.output@ == old(self).output@,
                forall|j: int| 0 <= j < i ==> buf@[start + j] == old(self).input@[j],
                forall|j: int| 0 <= j < start ==> buf@[j] == old(buf)@[j],
                forall|j: int| start + n <= j < buf@.len() ==> buf@[j] == old(buf)@[j],
            decreases n - i,
        {
            let u: u16 = self.input.remove(0);
            proof {
                assert(old(self).input@.skip(i as int)[0] == old(self).input@[i as int]);
                assert(old(self).input@.skip(i as int).remove(0) =~= old(self).input@.skip(
                    i + 1 as int,
                ));
            }
            buf[start + i] = u;
            i = i + 1;
        }
        proof {
            assert(buf@.subrange(start as int, start + n) =~= old(self).input@.take(n as int));
        }
        Ok(n)
    }

    fn write_bytes(&mut self, handle: Handle, data: &[u8]) -> (r: Result<usize, i32>) {
        let n: usize = data.len();
        let mut i: usize = 0;
        while i < n
            invariant
                i <= n,
                n == data@.len(),
            decreases n - i,
        {
            self.byte_output.push(*vstd::slice::slice_index_get(data, i));
            i = i + 1;
        }
        Ok(n)
    }

    fn read_bytes(&mut self, handle: Handle, buf: &mut Vec<u8>) -> (r: Result<usize, i32>) {
        let n: usize = if self.byte_input.len() < buf.len() {
            self.byte_input.len()
        } else {
            buf.len()
        };
        let mut i: usize = 0;
        while i < n
            invariant
                i <= n,
                n <= self.byte_input@.len() + i,
                n <= buf@.len(),
                buf@.len() == old(buf)@.len(),
                forall|j: int| n <= j < buf@.len() ==> buf@[j] == old(buf)@[j],
            decreases n - i,
        {
            let b: u8 = self.byte_input.remove(0);
            buf[i] = b;
            i = i + 1;
        }
        Ok(n)
    }
}

} // verus!
