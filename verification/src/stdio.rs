//! The console transcoding adapter itself: the write path, the read path,
//! and the per-stream carry-over slot for a split surrogate pair.

use vstd::prelude::*;

use crate::codec::{
    all_scalar_values, is_high_surrogate, lemma_utf8_prefix_encodes, units_utf8_len,
    utf16_encoding, utf16_parse, utf8_encoding, utf8_prefix,
};
use crate::console::{
    Console, Handle, StreamError, ERROR_INVALID_HANDLE, INVALID_HANDLE_RAW, STD_ERROR_HANDLE,
    STD_INPUT_HANDLE, STD_OUTPUT_HANDLE,
};

verus! {

/// Cap, in bytes, on how much one native console call is asked to move.
/// The native console draws its buffer from a small shared heap, so large
/// single calls are unreliable; this is the adopted safe limit.
pub const MAX_BUFFER_SIZE: usize = 8192;

/// The same cap counted in UTF-16 code units.
pub const MAX_UNITS: usize = MAX_BUFFER_SIZE / 2;

/// A standard stream of the process, addressed by its native identifier.
/// The native handle behind the identifier is looked up freshly on every
/// operation, because the host process may reinstall it between calls.
#[derive(Clone, Copy, PartialEq, Eq, Hash, Debug)]
pub struct Stdio {
    /// The native identifier of this stream.
    pub id: u32,
    /// An unpaired high surrogate held back by the previous read on this
    /// stream, to be recombined with the code unit that follows.
    pub pending: Option<u16>,
}

impl Stdio {
    /// The carry-over slot only ever holds a high surrogate.
    pub open spec fn wf(self) -> bool {
        self.pending matches Some(s) ==> crate::codec::is_high_surrogate(s)
    }

    /// The standard input stream, with an empty carry-over slot.
    pub fn stdin() -> (r: Self)
        ensures
            r.id == STD_INPUT_HANDLE,
            r.pending is None,
            r.wf(),
    {
        Stdio { id: STD_INPUT_HANDLE, pending: None }
    }

    /// The standard output stream, with an empty carry-over slot.
    pub fn stdout() -> (r: Self)
        ensures
            r.id == STD_OUTPUT_HANDLE,
            r.pending is None,
            r.wf(),
    {
        Stdio { id: STD_OUTPUT_HANDLE, pending: None }
    }

    /// The standard error stream, with an empty carry-over slot.
    pub fn stderr() -> (r: Self)
        ensures
            r.id == STD_ERROR_HANDLE,
            r.pending is None,
            r.wf(),
    {
        Stdio { id: STD_ERROR_HANDLE, pending: None }
    }
}

/// Looks up the handle currently installed for `handle_id` and classifies
/// it: the invalid-handle sentinel reports the platform's last error, an
/// empty slot reports the invalid-handle error code, anything else is
/// returned for use.
pub fn get_handle<C: Console>(con: &C, handle_id: u32) -> (r: Result<Handle, StreamError>)
    ensures
        r matches Ok(h) ==> h == con.handle_of(handle_id) && h.is_valid(),
        r is Err <==> !con.handle_of(handle_id).is_valid(),
        r matches Err(e) ==> e is Os,
        con.handle_of(handle_id).raw == 0 ==> r == Err::<Handle, StreamError>(
            StreamError::Os(ERROR_INVALID_HANDLE),
        ),
{
    let handle = con.std_handle(handle_id);
    if handle.raw == INVALID_HANDLE_RAW {
        Err(StreamError::Os(con.last_error_code()))
    } else if handle.raw == 0 {
        Err(StreamError::Os(ERROR_INVALID_HANDLE))
    } else {
        Ok(handle)
    }
}

/// Queries whether `handle` is attached to an interactive console.  Any
/// failure of the underlying mode query counts as "not a console", which
/// routes the stream to the plain byte path.
pub fn is_console<C: Console>(con: &C, handle: Handle) -> (r: bool)
    ensures
        r == con.console_mode(handle),
{
    con.is_console(handle)
}

/// Hands `units[from..to]` to the native console write; the count is
/// the number of units the native call durably accepted, which may be
/// any prefix of what was offered — and exactly those units extend the
/// console's transcript.
pub fn write_u16s<C: Console>(
    con: &mut C,
    handle: Handle,
    units: &[u16],
    from: usize,
    to: usize,
) -> (r: Result<usize, StreamError>)
    requires
        from <= to <= units@.len(),
    ensures
        r matches Ok(n) ==> n <= to - from,
        r matches Ok(n) ==> final(con).accepted_units() == old(con).accepted_units()
            + units@.subrange(from as int, from + n),
        r matches Ok(n) ==> final(con).input_units() == old(con).input_units(),
        r matches Err(e) ==> e is Os,
        r is Err ==> final(con).accepted_units() == old(con).accepted_units()
            && final(con).input_units() == old(con).input_units(),
{
    match con.write_console_units(handle, units, from, to) {
        Ok(n) => Ok(n),
        Err(code) => Err(StreamError::Os(code)),
    }
}

/// How many bytes of `data` one console write call considers: the
/// buffer cap expressed in bytes, a conservative bound chosen before
/// UTF-8 validation.
pub open spec fn spec_write_window(len: int) -> int {
    if len <= MAX_UNITS as int {
        len
    } else {
        MAX_UNITS as int
    }
}

/// The code units one console write call offers the native layer on
/// input `data`: the UTF-16 encoding of the valid UTF-8 prefix of the
/// considered window.
pub open spec fn offered_units(data: Seq<u8>) -> Seq<u16> {
    utf16_encoding(utf8_prefix(data.take(spec_write_window(data.len() as int))).0)
}

/// Everything `write` promises, stated over the states of the native
/// layer before and after the call.  On a console, a successful count
/// is the per-unit byte accounting of exactly the prefix of the
/// offered units by which the call extended the console's transcript:
/// the count equals the UTF-8 length of what was durably transmitted,
/// never more, never less.
pub open spec fn write_result_ok<C: Console>(
    con0: C,
    con1: C,
    handle_id: u32,
    data: Seq<u8>,
    r: Result<usize, StreamError>,
) -> bool {
    let h = con0.handle_of(handle_id);
    let window = data.take(spec_write_window(data.len() as int));
    let k = utf8_prefix(window).1;
    let units = offered_units(data);
    &&& (r matches Ok(n) ==> n <= data.len())
    &&& (r == Err::<usize, StreamError>(StreamError::InvalidData) <==> (h.is_valid()
        && con0.console_mode(h) && k == 0 && data.len() > 0))
    &&& (r == Err::<usize, StreamError>(StreamError::InvalidData) ==> con1 == con0)
    &&& (!h.is_valid() ==> r is Err && r->Err_0 is Os && con1 == con0)
    &&& (h.is_valid() && !con0.console_mode(h) ==> (r matches Err(e) ==> e is Os))
    &&& (h.is_valid() && con0.console_mode(h) ==> {
        &&& (r matches Ok(n) ==> exists|w: int|
            {
                &&& 0 <= w <= units.len()
                &&& con1.accepted_units() == con0.accepted_units() + units.take(w)
                &&& n == units_utf8_len(units.take(w))
            })
        &&& (r matches Ok(n) ==> n <= k && con1.input_units() == con0.input_units())
        &&& (r matches Err(e) ==> e is Os || e == StreamError::InvalidData)
        &&& (r is Err ==> con1.accepted_units() == con0.accepted_units() && con1.input_units()
            == con0.input_units())
    })
}

/// Full-acceptance accounting: when a console write succeeds and the
/// transcript shows every offered unit accepted, the reported count is
/// the whole valid prefix's byte length.  With `lemma_ascii_prefix`
/// this is the round trip's write half: an ASCII input within the
/// window, fully accepted, is counted in full.
pub proof fn lemma_write_full_acceptance<C: Console>(
    con0: C,
    con1: C,
    handle_id: u32,
    data: Seq<u8>,
    r: Result<usize, StreamError>,
)
    requires
        write_result_ok(con0, con1, handle_id, data, r),
        con0.handle_of(handle_id).is_valid(),
        con0.console_mode(con0.handle_of(handle_id)),
        r is Ok,
        con1.accepted_units() == con0.accepted_units() + offered_units(data),
    ensures
        r->Ok_0 == utf8_prefix(data.take(spec_write_window(data.len() as int))).1,
{
    let window = data.take(spec_write_window(data.len() as int));
    let units = offered_units(data);
    let n = r->Ok_0;
    let w = choose|w: int|
        {
            &&& 0 <= w <= units.len()
            &&& con1.accepted_units() == con0.accepted_units() + units.take(w)
            &&& n == units_utf8_len(units.take(w))
        };
    assert((con0.accepted_units() + units.take(w)).len() == (con0.accepted_units()
        + units).len());
    assert(w == units.len());
    assert(units.take(w) =~= units);
    lemma_utf8_prefix_encodes(window);
    crate::codec::lemma_units_utf8_len_total(utf8_prefix(window).0);
}

/// The per-unit accounting never charges a negative byte count.
proof fn lemma_units_utf8_len_nonneg(us: Seq<u16>)
    ensures
        units_utf8_len(us) >= 0,
    decreases us.len(),
{
    if us.len() > 0 {
        lemma_units_utf8_len_nonneg(us.skip(1));
    }
}

/// A prefix of the accepted units never accounts for more bytes than
/// the whole buffer.
proof fn lemma_units_utf8_len_prefix_le(us: Seq<u16>, w: int)
    requires
        0 <= w <= us.len(),
    ensures
        units_utf8_len(us.take(w)) <= units_utf8_len(us),
{
    assert(us =~= us.take(w) + us.skip(w));
    crate::codec::lemma_units_utf8_len_append(us.take(w), us.skip(w));
    lemma_units_utf8_len_nonneg(us.skip(w));
}

/// Writes `data` to the stream behind `handle_id`.  On a redirected
/// stream the bytes pass straight through to the native byte write.  On
/// a console, the longest valid UTF-8 prefix of the considered window
/// is transcoded to UTF-16 and offered to the native console write, and
/// the returned count is the UTF-8 byte accounting of exactly the code
/// units that were accepted — a caller that resumes after that count
/// loses no byte and repeats none.  A native call that splits a
/// surrogate pair is followed up with a best-effort single-unit write
/// of the pairing low surrogate, counted only if it succeeds.
pub fn write<C: Console>(con: &mut C, handle_id: u32, data: &[u8]) -> (r: Result<
    usize,
    StreamError,
>)
    ensures
        write_result_ok(*old(con), *final(con), handle_id, data@, r),
{
    let handle = match get_handle(con, handle_id) {
        Ok(h) => h,
        Err(e) => { return Err(e) },
    };
    if !is_console(con, handle) {
        return match con.write_bytes(handle, data) {
            Ok(n) => Ok(n),
            Err(code) => Err(StreamError::Os(code)),
        };
    }
    let len: usize = if data.len() < MAX_UNITS {
        data.len()
    } else {
        MAX_UNITS
    };
    let ghost window = data@.take(spec_write_window(data@.len() as int));
    let (utf16, consumed) = crate::codec::utf8_to_utf16_prefix(data, len);
    proof {
        assert(window == data@.take(len as int));
        lemma_utf8_prefix_encodes(window);
    }
    if consumed == 0 {
        if data.len() > 0 {
            return Err(StreamError::InvalidData);
        }
    }
    let ghost cs = utf8_prefix(window).0;
    let ghost units = utf16_encoding(cs);
    let ghost base = con.accepted_units();
    proof {
        assert(units == offered_units(data@));
        assert(utf16@ == units);
    }
    let mut written = match write_u16s(con, handle, utf16.as_slice(), 0, utf16.len()) {
        Ok(n) => n,
        Err(e) => { return Err(e) },
    };
    proof {
        assert(utf16@.subrange(0, written as int) =~= units.take(written as int));
        assert(con.accepted_units() == base + units.take(written as int));
    }
    if written == utf16.len() {
        proof {
            crate::codec::lemma_units_utf8_len_total(cs);
            assert(units.take(written as int) =~= units);
        }
        Ok(consumed)
    } else {
        let first_remaining = *vstd::slice::slice_index_get(utf16.as_slice(), written);
        if 0xDC00 <= first_remaining && first_remaining <= 0xDFFF {
            // The native call stopped mid-pair; try to push the pairing
            // low surrogate out on its own, and count it only if that
            // worked.
            let ghost w0 = written as int;
            match write_u16s(con, handle, utf16.as_slice(), written, written + 1) {
                Ok(m) => {
                    proof {
                        assert(utf16@.subrange(w0, w0 + m) =~= units.subrange(w0, w0 + m));
                        assert((base + units.take(w0)) + units.subrange(w0, w0 + m) =~= base
                            + units.take(w0 + m));
                    }
                    if m == 1 {
                        written = written + 1;
                    } else {
                        proof {
                            assert(m == 0);
                            assert(units.take(w0 + 0) =~= units.take(w0));
                        }
                    }
                },
                Err(_) => {},
            }
        }
        let count = crate::codec::utf8_count_for_units(utf16.as_slice(), written);
        proof {
            crate::codec::lemma_units_utf8_len_total(cs);
            lemma_units_utf8_len_prefix_le(units, written as int);
            lemma_units_utf8_len_nonneg(units.take(written as int));
            assert(con.accepted_units() == base + units.take(written as int));
        }
        Ok(count)
    }
}

/// Code unit that marks end of input when it terminates a native
/// console read.
pub const CTRL_Z: u16 = 0x1A;

/// One trailing end-of-stream sentinel dropped, if present: the
/// sentinel marks end of input and is never data.
pub open spec fn trim_sentinel(s: Seq<u16>) -> Seq<u16> {
    if s.len() > 0 && s.last() == CTRL_Z {
        s.drop_last()
    } else {
        s
    }
}

/// The carry-over slot as a code-unit sequence.
pub open spec fn pend_seq(p: Option<u16>) -> Seq<u16> {
    match p {
        Some(s) => seq![s],
        None => Seq::empty(),
    }
}

/// One native console read as `read_u16s` reports it: `m` units came
/// off the front of the input stream, and the kept units — the served
/// ones, one trailing sentinel trimmed — stand at `buf[start..]`.
pub open spec fn read_units_outcome<C: Console>(
    con0: C,
    con1: C,
    buf1: Seq<u16>,
    start: int,
    n: int,
    m: int,
) -> bool {
    &&& 0 <= m <= con0.input_units().len()
    &&& con1.input_units() == con0.input_units().skip(m)
    &&& con1.accepted_units() == con0.accepted_units()
    &&& n == trim_sentinel(con0.input_units().take(m)).len()
    &&& buf1.subrange(start, start + n) == trim_sentinel(con0.input_units().take(m))
}

/// One repaired console read as `read_u16s_fixup_surrogates` reports
/// it: the previously held unit, then the kept units of this call's
/// native read; a trailing high surrogate is moved to the carry-over
/// slot instead of being counted.
pub open spec fn fixup_outcome<C: Console>(
    con0: C,
    con1: C,
    pending0: Option<u16>,
    pending1: Option<u16>,
    buf1: Seq<u16>,
    t: int,
    m: int,
) -> bool {
    let full = pend_seq(pending0) + trim_sentinel(con0.input_units().take(m));
    &&& 0 <= m <= con0.input_units().len()
    &&& con1.input_units() == con0.input_units().skip(m)
    &&& con1.accepted_units() == con0.accepted_units()
    &&& (if full.len() > 0 && is_high_surrogate(full[full.len() - 1]) {
        pending1 == Some(full[full.len() - 1]) && t == full.len() - 1
    } else {
        pending1 is None && t == full.len()
    })
    &&& buf1.take(t) == full.take(t)
}

/// One whole console read as `Stdio::read` reports it, tied to the
/// units consumed from the native input stream: the previously pending
/// unit and this call's kept units, minus a trailing high surrogate
/// held back for the next call, are the text of this call, and on
/// success the bytes delivered are exactly its UTF-8.
pub open spec fn read_outcome_ok<C: Console>(
    con0: C,
    con1: C,
    pending0: Option<u16>,
    pending1: Option<u16>,
    buf1: Seq<u8>,
    r: Result<usize, StreamError>,
    m: int,
) -> bool {
    let full = pend_seq(pending0) + trim_sentinel(con0.input_units().take(m));
    let holdback = full.len() > 0 && is_high_surrogate(full[full.len() - 1]);
    let delivered = if holdback {
        full.drop_last()
    } else {
        full
    };
    &&& 0 <= m <= con0.input_units().len()
    &&& con1.input_units() == con0.input_units().skip(m)
    &&& con1.accepted_units() == con0.accepted_units()
    &&& (holdback ==> pending1 == Some(full[full.len() - 1]))
    &&& (!holdback ==> pending1 is None)
    &&& (r matches Ok(n) ==> utf16_parse(delivered) is Some && n == utf8_encoding(
        utf16_parse(delivered)->0,
    ).len() && buf1.take(n as int) == utf8_encoding(utf16_parse(delivered)->0))
    &&& (r == Err::<usize, StreamError>(StreamError::InvalidData) ==> utf16_parse(
        delivered,
    ) is None)
}

/// Reads up to `end - start` code units from the native console into
/// `buf[start..end]` and trims one trailing end-of-stream sentinel:
/// a final `CTRL_Z` unit marks end of input and is not data.
pub fn read_u16s<C: Console>(
    con: &mut C,
    handle: Handle,
    buf: &mut Vec<u16>,
    start: usize,
    end: usize,
) -> (r: Result<usize, StreamError>)
    requires
        start <= end <= old(buf)@.len(),
    ensures
        final(buf)@.len() == old(buf)@.len(),
        forall|i: int| 0 <= i < start ==> final(buf)@[i] == old(buf)@[i],
        r matches Ok(n) ==> n <= end - start,
        r matches Ok(n) ==> (n == 0 || final(buf)@[start + n - 1] != CTRL_Z || (n < end - start
            && final(buf)@[start + n] == CTRL_Z)),
        r matches Ok(n) ==> forall|i: int|
            start + n + 1 <= i < final(buf)@.len() ==> final(buf)@[i] == old(buf)@[i],
        r matches Ok(n) ==> read_units_outcome(
            *old(con),
            *final(con),
            final(buf)@,
            start as int,
            n as int,
            old(con).input_units().len() - final(con).input_units().len(),
        ),
        r matches Err(e) ==> e is Os,
{
    let served = match con.read_console_units(handle, buf, start, end) {
        Ok(n) => n,
        Err(code) => { return Err(StreamError::Os(code)) },
    };
    let mut amount = served;
    if amount > 0 {
        if buf[start + amount - 1] == CTRL_Z {
            amount = amount - 1;
        }
    }
    proof {
        let s0 = old(con).input_units().take(served as int);
        assert(s0.len() == served);
        if served > 0 && buf@[start + served - 1] == CTRL_Z {
            assert(s0.last() == buf@[start + served - 1]);
            assert(trim_sentinel(s0) == s0.drop_last());
            assert(amount == served - 1);
            assert(buf@.subrange(start as int, start + amount as int) =~= trim_sentinel(s0));
        } else {
            if served > 0 {
                assert(s0.last() == buf@[start + served - 1]);
            }
            assert(trim_sentinel(s0) == s0);
            assert(amount == served);
            assert(buf@.subrange(start as int, start + amount as int) =~= trim_sentinel(s0));
        }
        assert(con.input_units().len() == old(con).input_units().len() - served);
        assert(read_units_outcome(*old(con), *con, buf@, start as int, amount as int,
            served as int));
    }
    Ok(amount)
}

/// Runs a native console read and repairs surrogate-pair splits at
/// both ends of the buffer: a unit held back by the previous read is
/// placed first, and a trailing unpaired high surrogate is held back
/// in `pending` instead of being returned.  When the held-back unit is
/// the only thing asked for, one more unit is read so the pair can
/// complete, which is why the buffer must have room for two.
pub fn read_u16s_fixup_surrogates<C: Console>(
    con: &mut C,
    handle: Handle,
    buf: &mut Vec<u16>,
    amount: usize,
    pending: &mut Option<u16>,
) -> (r: Result<usize, StreamError>)
    requires
        1 <= amount <= old(buf)@.len(),
        2 <= old(buf)@.len(),
        ((*old(pending)) matches Some(s) ==> is_high_surrogate(s)),
    ensures
        final(buf)@.len() == old(buf)@.len(),
        ((*final(pending)) matches Some(s) ==> is_high_surrogate(s)),
        r matches Err(e) ==> e is Os && (*final(pending)) is None,
        r matches Ok(t) ==> ({
            &&& t <= if amount == 1 && (*old(pending)) is Some {
                2int
            } else {
                amount as int
            }
            &&& t <= final(buf)@.len()
            &&& ((*old(pending)) matches Some(s) ==> final(buf)@[0] == s)
            &&& ((*final(pending)) is None && t > 0 ==> !is_high_surrogate(final(buf)@[t - 1]))
            &&& ((*final(pending)) matches Some(s) ==> t < final(buf)@.len()
                && final(buf)@[t as int] == s)
        }),
        r matches Ok(t) ==> fixup_outcome(
            *old(con),
            *final(con),
            *old(pending),
            *final(pending),
            final(buf)@,
            t as int,
            old(con).input_units().len() - final(con).input_units().len(),
        ),
{
    let mut start: usize = 0;
    let mut amt: usize = amount;
    let held: Option<u16> = *pending;
    *pending = None;
    match held {
        Some(s) => {
            buf[0] = s;
            start = 1;
            if amt == 1 {
                // One more unit can always be read: the caller's byte
                // buffer holds at least one whole character, so the
                // held-back surrogate may complete its pair.
                amt = 2;
            }
        },
        None => {},
    }
    let read = match read_u16s(con, handle, buf, start, amt) {
        Ok(n) => n,
        Err(e) => { return Err(e) },
    };
    let ghost m = old(con).input_units().len() - con.input_units().len();
    let ghost full = pend_seq(*old(pending)) + trim_sentinel(old(con).input_units().take(m));
    proof {
        assert(read_units_outcome(*old(con), *con, buf@, start as int, read as int, m));
    }
    let mut total = read + start;
    proof {
        assert(pend_seq(*old(pending)).len() == start);
        assert(full.len() == total);
        assert(buf@.take(total as int) =~= full) by {
            assert(forall|i: int|
                start <= i < total ==> buf@[i] == #[trigger] buf@.subrange(
                    start as int,
                    start + read as int,
                )[i - start]);
        }
    }
    if total > 0 {
        let last = buf[total - 1];
        if 0xD800 <= last && last <= 0xDBFF {
            *pending = Some(last);
            total = total - 1;
            proof {
                assert(full[full.len() - 1] == last);
                assert(buf@.take(total as int) =~= full.take(total as int));
                assert(fixup_outcome(*old(con), *con, *old(pending), *pending, buf@,
                    total as int, m));
            }
        } else {
            proof {
                assert(full[full.len() - 1] == last);
                assert(buf@.take(total as int) =~= full.take(total as int));
                assert(fixup_outcome(*old(con), *con, *old(pending), *pending, buf@,
                    total as int, m));
            }
        }
    } else {
        proof {
            assert(full.len() == 0);
            assert(buf@.take(0) =~= full.take(0));
            assert(fixup_outcome(*old(con), *con, *old(pending), *pending, buf@, 0, m));
        }
    }
    Ok(total)
}

/// Split writes account exactly, at the contract level: two
/// successive console writes report counts that sum to the per-unit
/// accounting of precisely the units by which the two calls together
/// grew the transcript — no byte double-counted, none lost.
pub proof fn lemma_write_counts_add<C: Console>(
    con0: C,
    con1: C,
    con2: C,
    handle_id: u32,
    data1: Seq<u8>,
    data2: Seq<u8>,
    r1: Result<usize, StreamError>,
    r2: Result<usize, StreamError>,
)
    requires
        write_result_ok(con0, con1, handle_id, data1, r1),
        write_result_ok(con1, con2, handle_id, data2, r2),
        con0.handle_of(handle_id).is_valid(),
        con0.console_mode(con0.handle_of(handle_id)),
        con1.handle_of(handle_id).is_valid(),
        con1.console_mode(con1.handle_of(handle_id)),
        r1 is Ok,
        r2 is Ok,
    ensures
        exists|d: Seq<u16>|
            con2.accepted_units() == con0.accepted_units() + d && r1->Ok_0 + r2->Ok_0
                == units_utf8_len(d),
{
    let u1 = offered_units(data1);
    let u2 = offered_units(data2);
    let n1 = r1->Ok_0;
    let n2 = r2->Ok_0;
    let w1 = choose|w: int|
        {
            &&& 0 <= w <= u1.len()
            &&& con1.accepted_units() == con0.accepted_units() + u1.take(w)
            &&& n1 == units_utf8_len(u1.take(w))
        };
    let w2 = choose|w: int|
        {
            &&& 0 <= w <= u2.len()
            &&& con2.accepted_units() == con1.accepted_units() + u2.take(w)
            &&& n2 == units_utf8_len(u2.take(w))
        };
    crate::codec::lemma_units_utf8_len_append(u1.take(w1), u2.take(w2));
    assert(con2.accepted_units() =~= con0.accepted_units() + (u1.take(w1) + u2.take(w2)));
    assert(con2.accepted_units() == con0.accepted_units() + (u1.take(w1) + u2.take(w2)) && n1
        + n2 == units_utf8_len(u1.take(w1) + u2.take(w2)));
}

/// Carry-over across two reads, at the contract level: when the units
/// a first read consumed end on an unpaired high surrogate — held
/// back rather than delivered — and a second read follows on the same
/// stream, the delivered byte prefixes of the two calls concatenate
/// to the UTF-8 of all consumed units parsed as one text, with no
/// error in between.  Stated for streams the sentinel trim leaves
/// alone; a trimmed end-of-stream mark would end the text instead.
pub proof fn lemma_reads_concatenate<C: Console>(
    con0: C,
    con1: C,
    con2: C,
    p0: Option<u16>,
    p1: Option<u16>,
    p2: Option<u16>,
    buf1: Seq<u8>,
    buf2: Seq<u8>,
    r1: Result<usize, StreamError>,
    r2: Result<usize, StreamError>,
    m1: int,
    m2: int,
)
    requires
        read_outcome_ok(con0, con1, p0, p1, buf1, r1, m1),
        read_outcome_ok(con1, con2, p1, p2, buf2, r2, m2),
        p0 is None,
        p2 is None,
        r1 is Ok,
        r2 is Ok,
        trim_sentinel(con0.input_units().take(m1)) == con0.input_units().take(m1),
        trim_sentinel(con1.input_units().take(m2)) == con1.input_units().take(m2),
    ensures
        utf16_parse(con0.input_units().take(m1 + m2)) is Some,
        buf1.take(r1->Ok_0 as int) + buf2.take(r2->Ok_0 as int) == utf8_encoding(
            utf16_parse(con0.input_units().take(m1 + m2))->0,
        ),
{
    let chunk1 = con0.input_units().take(m1);
    let chunk2 = con1.input_units().take(m2);
    let full1 = pend_seq(p0) + trim_sentinel(chunk1);
    let full2 = pend_seq(p1) + trim_sentinel(chunk2);
    assert(full1 =~= chunk1);
    let holdback1 = full1.len() > 0 && is_high_surrogate(full1[full1.len() - 1]);
    let delivered1 = if holdback1 {
        full1.drop_last()
    } else {
        full1
    };
    assert(!(full2.len() > 0 && is_high_surrogate(full2[full2.len() - 1])));
    assert(chunk2 =~= con0.input_units().skip(m1).take(m2));
    assert(delivered1 + full2 =~= chunk1 + chunk2) by {
        if holdback1 {
            assert(p1 == Some(full1[full1.len() - 1]));
            assert(pend_seq(p1) =~= seq![full1[full1.len() - 1]]);
        } else {
            assert(p1 is None);
            assert(pend_seq(p1) =~= Seq::<u16>::empty());
        }
    }
    assert(chunk1 + chunk2 =~= con0.input_units().take(m1 + m2));
    crate::codec::lemma_utf16_parse_append(delivered1, full2);
    let cs1 = utf16_parse(delivered1)->0;
    let cs2 = utf16_parse(full2)->0;
    crate::codec::lemma_utf8_encoding_append(cs1, cs2);
    assert(buf1.take(r1->Ok_0 as int) + buf2.take(r2->Ok_0 as int) =~= utf8_encoding(cs1)
        + utf8_encoding(cs2));
}

impl Stdio {
    /// Byte-stream write on this stream: resolves the current native
    /// handle afresh and forwards to [`write`].
    pub fn write<C: Console>(&self, con: &mut C, data: &[u8]) -> (r: Result<usize, StreamError>)
        ensures
            write_result_ok(*old(con), *final(con), self.id, data@, r),
    {
        write(con, self.id, data)
    }

    /// Nothing is buffered in the adapter, so there is nothing to flush.
    pub fn flush(&self) -> (r: Result<(), StreamError>)
        ensures
            r is Ok,
    {
        Ok(())
    }

    /// Byte-stream read on this stream: resolves the current native
    /// handle afresh; on a redirected stream the bytes pass straight
    /// through, and on a console up to a third of the buffer in UTF-16
    /// code units is read — with surrogate carry-over — and decoded into
    /// `buf`.  Whatever was read, the bytes delivered are the UTF-8
    /// encoding of whole characters.  A buffer of one to three bytes is
    /// refused outright, before any native call, because it cannot
    /// guarantee room for one arbitrary character.
    pub fn read<C: Console>(&mut self, con: &mut C, buf: &mut Vec<u8>) -> (r: Result<
        usize,
        StreamError,
    >)
        requires
            old(self).wf(),
        ensures
            final(self).wf(),
            final(self).id == old(self).id,
            final(buf)@.len() == old(buf)@.len(),
            ({
                let h = old(con).handle_of(old(self).id);
                &&& (r == Err::<usize, StreamError>(StreamError::InvalidInput) <==> (h.is_valid()
                    && old(con).console_mode(h) && 0 < old(buf)@.len() < 4))
                &&& (!h.is_valid() ==> r is Err && r->Err_0 is Os && *final(con) == *old(con)
                    && *final(self) == *old(self) && final(buf)@ == old(buf)@)
                &&& (h.is_valid() && !old(con).console_mode(h) ==> {
                    &&& (r matches Ok(n) ==> n <= final(buf)@.len())
                    &&& (r matches Err(e) ==> e is Os)
                    &&& *final(self) == *old(self)
                })
                &&& (h.is_valid() && old(con).console_mode(h) ==> {
                    &&& (old(buf)@.len() == 0 ==> r == Ok::<usize, StreamError>(0) && *final(con)
                        == *old(con) && *final(self) == *old(self) && final(buf)@ == old(buf)@)
                    &&& (0 < old(buf)@.len() < 4 ==> r == Err::<usize, StreamError>(
                        StreamError::InvalidInput,
                    ) && *final(con) == *old(con) && *final(self) == *old(self) && final(buf)@
                        == old(buf)@)
                    &&& (r matches Ok(n) ==> n <= final(buf)@.len())
                    &&& (old(buf)@.len() >= 4 && !(r is Err && r->Err_0 is Os)
                        ==> read_outcome_ok(
                        *old(con),
                        *final(con),
                        old(self).pending,
                        final(self).pending,
                        final(buf)@,
                        r,
                        old(con).input_units().len() - final(con).input_units().len(),
                    ))
                    &&& (r matches Err(e) ==> e is Os || e == StreamError::InvalidData || e
                        == StreamError::InvalidInput)
                })
            }),
    {
        let handle = match get_handle(con, self.id) {
            Ok(h) => h,
            Err(e) => { return Err(e) },
        };
        if !is_console(con, handle) {
            return match con.read_bytes(handle, buf) {
                Ok(n) => Ok(n),
                Err(code) => Err(StreamError::Os(code)),
            };
        }
        if buf.len() == 0 {
            proof {
                assert(buf@.take(0) =~= Seq::<u8>::empty());
                assert(utf8_encoding(Seq::<int>::empty()) =~= Seq::<u8>::empty());
                assert(all_scalar_values(Seq::<int>::empty()));
                assert(buf@.take(0) == utf8_encoding(Seq::<int>::empty()));
            }
            return Ok(0);
        }
        if buf.len() < 4 {
            return Err(StreamError::InvalidInput);
        }
        // Worst case, decoding spends three bytes per code unit, so a
        // third of the byte buffer is the most that can be asked for
        // without risking lost data.
        let amount: usize = {
            let third: usize = buf.len() / 3;
            if third < MAX_UNITS {
                third
            } else {
                MAX_UNITS
            }
        };
        let bufsize: usize = if amount < 2 {
            2
        } else {
            amount
        };
        let mut utf16: Vec<u16> = Vec::new();
        let mut k: usize = 0;
        while k < bufsize
            invariant
                utf16@.len() == k,
                k <= bufsize,
            decreases bufsize - k,
        {
            utf16.push(0);
            k = k + 1;
        }
        let ghost pending0 = self.pending;
        let total = match read_u16s_fixup_surrogates(
            con,
            handle,
            &mut utf16,
            amount,
            &mut self.pending,
        ) {
            Ok(t) => t,
            Err(e) => { return Err(e) },
        };
        proof {
            if amount == 1 && pending0 is Some {
                assert(total <= 2);
                crate::codec::lemma_decode_fits_pair(
                    utf16@.take(total as int),
                    buf@.len() as int,
                );
            } else {
                assert(total <= amount);
                assert(3 * total <= buf@.len());
                crate::codec::lemma_decode_fits_3x(utf16@.take(total as int), buf@.len() as int);
            }
        }
        let ghost m = old(con).input_units().len() - con.input_units().len();
        let ghost full = pend_seq(pending0) + trim_sentinel(old(con).input_units().take(m));
        let ghost holdback = full.len() > 0 && is_high_surrogate(full[full.len() - 1]);
        let ghost delivered = if holdback {
            full.drop_last()
        } else {
            full
        };
        proof {
            assert(fixup_outcome(*old(con), *con, pending0, self.pending, utf16@, total as int,
                m));
            if holdback {
                assert(total == full.len() - 1);
                assert(full.take(total as int) =~= full.drop_last());
            } else {
                assert(total == full.len());
                assert(full.take(total as int) =~= full);
            }
            assert(utf16@.take(total as int) == delivered);
        }
        let r = crate::codec::utf16_to_utf8(&utf16, total, buf);
        proof {
            assert(read_outcome_ok(*old(con), *con, pending0, self.pending, buf@, r, m));
        }
        r
    }
}

} // verus!
