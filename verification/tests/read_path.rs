//! The read transcoder against a scripted native console: decoding,
//! the carry-over slot for a split surrogate pair, the end-of-stream
//! sentinel, and the small-buffer guard.

use console_io::codec::{utf16_to_utf8, utf8_to_utf16_prefix};
use console_io::console::StreamError;
use console_io::loopback::ScriptedConsole;
use console_io::stdio::Stdio;

fn console_serving(input: Vec<u16>, serve: Vec<usize>) -> ScriptedConsole {
    let mut con = ScriptedConsole::new();
    con.input = input;
    con.serve = serve;
    con
}

#[test]
fn read_simple_ascii() {
    let mut con = console_serving(vec![0x68, 0x69], vec![]);
    let mut stdin = Stdio::stdin();
    let mut buf = vec![0u8; 16];
    assert_eq!(stdin.read(&mut con, &mut buf), Ok(2));
    assert_eq!(&buf[..2], b"hi");
}

#[test]
fn surrogate_carry_over_across_reads() {
    // P4: the first native read ends on an unpaired high surrogate; the
    // pairing low surrogate arrives only on the next call.  No call
    // errs, and the concatenated output is the correct text.
    let units: Vec<u16> = "a\u{1F600}b".encode_utf16().collect();
    assert_eq!(units, vec![0x61, 0xD83D, 0xDE00, 0x62]);
    let mut con = console_serving(units, vec![2, 2]);
    let mut stdin = Stdio::stdin();
    let mut collected: Vec<u8> = Vec::new();
    for _ in 0..3 {
        let mut buf = vec![0u8; 6];
        let n = stdin.read(&mut con, &mut buf).unwrap();
        collected.extend_from_slice(&buf[..n]);
    }
    assert_eq!(collected, "a\u{1F600}b".as_bytes().to_vec());
}

#[test]
fn minimum_buffer_rejected() {
    // P5: one to three bytes of room cannot hold one arbitrary
    // character; the call fails before any native read.
    let mut stdin = Stdio::stdin();
    for len in 1usize..4 {
        let mut con = console_serving(vec![0x41, 0x42], vec![]);
        let mut buf = vec![0u8; len];
        assert_eq!(
            stdin.read(&mut con, &mut buf),
            Err(StreamError::InvalidInput)
        );
        assert_eq!(con.input.len(), 2);
        assert_eq!(buf, vec![0u8; len]);
    }
}

#[test]
fn empty_buffer_reads_nothing() {
    let mut con = console_serving(vec![0x41], vec![]);
    let mut stdin = Stdio::stdin();
    let mut buf: Vec<u8> = Vec::new();
    assert_eq!(stdin.read(&mut con, &mut buf), Ok(0));
    assert_eq!(con.input.len(), 1);
}

#[test]
fn end_of_stream_sentinel_trimmed() {
    let mut con = console_serving(vec![0x61, 0x1A], vec![]);
    let mut stdin = Stdio::stdin();
    let mut buf = vec![0u8; 8];
    assert_eq!(stdin.read(&mut con, &mut buf), Ok(1));
    assert_eq!(buf[0], 0x61);
}

#[test]
fn sentinel_only_trimmed_at_the_tail() {
    let mut con = console_serving(vec![0x1A, 0x61], vec![]);
    let mut stdin = Stdio::stdin();
    let mut buf = vec![0u8; 8];
    assert_eq!(stdin.read(&mut con, &mut buf), Ok(2));
    assert_eq!(&buf[..2], &[0x1A, 0x61]);
}

#[test]
fn unpaired_low_surrogate_fails() {
    let mut con = console_serving(vec![0xDC00], vec![]);
    let mut stdin = Stdio::stdin();
    let mut buf = vec![0u8; 8];
    assert_eq!(stdin.read(&mut con, &mut buf), Err(StreamError::InvalidData));
}

#[test]
fn lone_trailing_high_surrogate_held_back() {
    // A read that delivers only a high surrogate returns no bytes at
    // all — the unit waits in the carry-over slot instead of failing.
    let mut con = console_serving(vec![0xD83D], vec![]);
    let mut stdin = Stdio::stdin();
    let mut buf = vec![0u8; 8];
    assert_eq!(stdin.read(&mut con, &mut buf), Ok(0));
    assert_eq!(stdin.pending, Some(0xD83D));
}

#[test]
fn read_invalid_handle() {
    let mut con = console_serving(vec![0x41], vec![]);
    con.handle_raw = 0;
    let mut stdin = Stdio::stdin();
    let mut buf = vec![0u8; 8];
    assert_eq!(stdin.read(&mut con, &mut buf), Err(StreamError::Os(6)));
}

#[test]
fn read_redirected_passes_bytes_through() {
    let mut con = console_serving(vec![], vec![]);
    con.console = false;
    con.byte_input = vec![1, 2, 3];
    let mut stdin = Stdio::stdin();
    let mut buf = vec![0u8; 2];
    assert_eq!(stdin.read(&mut con, &mut buf), Ok(2));
    assert_eq!(buf, vec![1, 2]);
    assert_eq!(con.byte_input, vec![3]);
}

#[test]
fn read_amount_is_capped() {
    // However large the byte buffer, one native read is asked for at
    // most the unit cap.
    let mut con = console_serving(vec![0x61; 5000], vec![]);
    let mut stdin = Stdio::stdin();
    let mut buf = vec![0u8; 20000];
    assert_eq!(stdin.read(&mut con, &mut buf), Ok(4096));
    assert_eq!(con.input.len(), 5000 - 4096);
}

#[test]
fn decode_units_exact_bytes() {
    let units: Vec<u16> = "h\u{E9}llo\u{1F600}".encode_utf16().collect();
    let total = units.len();
    let mut out = vec![0u8; 3 * total];
    let n = utf16_to_utf8(&units, total, &mut out).unwrap();
    assert_eq!(&out[..n], "h\u{E9}llo\u{1F600}".as_bytes());
}

#[test]
fn decode_rejects_unpaired_surrogates() {
    let mut out = vec![0u8; 16];
    let r = utf16_to_utf8(&vec![0x61, 0xD800, 0x62], 3, &mut out);
    assert_eq!(r, Err(StreamError::InvalidData));
    let r = utf16_to_utf8(&vec![0xDFFF], 1, &mut out);
    assert_eq!(r, Err(StreamError::InvalidData));
}

#[test]
fn encode_stops_at_invalid_byte() {
    let data = [0x61u8, 0x62, 0xC3, 0xA9, 0xFF, 0x63];
    let (units, consumed) = utf8_to_utf16_prefix(&data, data.len());
    assert_eq!(consumed, 4);
    assert_eq!(units, vec![0x61, 0x62, 0xE9]);
}

#[test]
fn encode_handles_every_length_class() {
    let text = "A\u{3B1}\u{20AC}\u{1F600}";
    let data = text.as_bytes();
    let (units, consumed) = utf8_to_utf16_prefix(data, data.len());
    assert_eq!(consumed, data.len());
    let expect: Vec<u16> = text.encode_utf16().collect();
    assert_eq!(units, expect);
}
