//! The write transcoder against a scripted native console: full writes,
//! partial writes, surrogate splits and the byte accounting they report.

use console_io::console::StreamError;
use console_io::loopback::ScriptedConsole;
use console_io::stdio::{Stdio, MAX_BUFFER_SIZE, MAX_UNITS};

fn console() -> ScriptedConsole {
    ScriptedConsole::new()
}

#[test]
fn ascii_write_full() {
    let mut con = console();
    let r = console_io::stdio::write(&mut con, 0xFFFF_FFF5, b"hello");
    assert_eq!(r, Ok(5));
    assert_eq!(con.output, vec![0x68u16, 0x65, 0x6C, 0x6C, 0x6F]);
}

#[test]
fn round_trip_ascii() {
    // P1: bytes written through the console come back unchanged when the
    // transcript is fed to the read side, and the count is the length.
    let text = b"hello, world";
    let mut con = console();
    let r = console_io::stdio::write(&mut con, 0xFFFF_FFF5, text);
    assert_eq!(r, Ok(text.len()));
    let transcript = con.output.clone();
    con.input = transcript;
    let mut stdin = Stdio::stdin();
    let mut buf = vec![0u8; 64];
    let n = stdin.read(&mut con, &mut buf).unwrap();
    assert_eq!(n, text.len());
    assert_eq!(&buf[..n], text);
}

#[test]
fn partial_write_bmp_accounting() {
    // "a" (1 byte, 1 unit), "e acute" (2 bytes, 1 unit), euro sign
    // (3 bytes, 1 unit); the native call accepts only 2 of 3 units.
    let data = "a\u{E9}\u{20AC}".as_bytes();
    assert_eq!(data.len(), 6);
    let mut con = console();
    con.accept = vec![2];
    let r = console_io::stdio::write(&mut con, 0xFFFF_FFF5, data);
    assert_eq!(r, Ok(3));
    assert_eq!(con.output, vec![0x61u16, 0xE9]);
}

#[test]
fn split_pair_followup_succeeds() {
    // "a" then an astral character: units are [0x61, high, low].  The
    // native call accepts 2, cutting the pair; the follow-up single-unit
    // write is accepted, so the full five bytes are counted.
    let data = "a\u{1F600}".as_bytes();
    assert_eq!(data.len(), 5);
    let mut con = console();
    con.accept = vec![2, 1];
    let r = console_io::stdio::write(&mut con, 0xFFFF_FFF5, data);
    assert_eq!(r, Ok(5));
    assert_eq!(con.output, vec![0x61u16, 0xD83D, 0xDE00]);
}

#[test]
fn split_pair_followup_fails() {
    // Same split, but the follow-up write is refused (accepts 0 units):
    // the low surrogate's byte is not counted, the high surrogate's
    // three are.
    let data = "a\u{1F600}".as_bytes();
    let mut con = console();
    con.accept = vec![2, 0];
    let r = console_io::stdio::write(&mut con, 0xFFFF_FFF5, data);
    assert_eq!(r, Ok(4));
    assert_eq!(con.output, vec![0x61u16, 0xD83D]);
}

#[test]
fn split_writes_sum_to_whole() {
    // P3: however the native side chops the unit stream, resuming after
    // each reported count transmits every byte exactly once.
    let data = "\u{1F600}\u{1F601}x\u{10348}".as_bytes();
    let mut con = console();
    con.accept = vec![1; 32];
    let mut offset = 0usize;
    let mut calls = 0usize;
    while offset < data.len() {
        let n = console_io::stdio::write(&mut con, 0xFFFF_FFF5, &data[offset..]).unwrap();
        assert!(n > 0);
        offset += n;
        calls += 1;
        assert!(calls < 32);
    }
    assert_eq!(offset, data.len());
    let expect: Vec<u16> = "\u{1F600}\u{1F601}x\u{10348}".encode_utf16().collect();
    assert_eq!(con.output, expect);
}

#[test]
fn invalid_utf8_write_rejected() {
    let mut con = console();
    let r = console_io::stdio::write(&mut con, 0xFFFF_FFF5, &[0xFF, 0x41]);
    assert_eq!(r, Err(StreamError::InvalidData));
    assert!(con.output.is_empty());
}

#[test]
fn invalid_utf8_after_valid_prefix() {
    let mut con = console();
    let r = console_io::stdio::write(&mut con, 0xFFFF_FFF5, &[0x41, 0x42, 0xFF, 0x43]);
    assert_eq!(r, Ok(2));
    assert_eq!(con.output, vec![0x41u16, 0x42]);
}

#[test]
fn empty_write() {
    let mut con = console();
    assert_eq!(console_io::stdio::write(&mut con, 0xFFFF_FFF5, b""), Ok(0));
}

#[test]
fn overlong_and_surrogate_bytes_rejected() {
    // 0xC0 0x80 is the overlong form of NUL; 0xED 0xA0 0x80 encodes a
    // surrogate.  Neither has a single valid leading byte.
    let mut con = console();
    assert_eq!(
        console_io::stdio::write(&mut con, 0xFFFF_FFF5, &[0xC0, 0x80]),
        Err(StreamError::InvalidData)
    );
    assert_eq!(
        console_io::stdio::write(&mut con, 0xFFFF_FFF5, &[0xED, 0xA0, 0x80]),
        Err(StreamError::InvalidData)
    );
}

#[test]
fn write_window_is_capped() {
    // More than MAX_BUFFER_SIZE / 2 bytes of ASCII: one call considers
    // only the cap's worth.
    let data = vec![0x61u8; MAX_UNITS + 100];
    let mut con = console();
    let r = console_io::stdio::write(&mut con, 0xFFFF_FFF5, &data);
    assert_eq!(r, Ok(MAX_UNITS));
    assert_eq!(con.output.len(), MAX_BUFFER_SIZE / 2);
}

#[test]
fn write_invalid_handle() {
    let mut con = console();
    con.handle_raw = usize::MAX;
    con.error_code = 5;
    assert_eq!(console_io::stdio::write(&mut con, 0xFFFF_FFF5, b"x"), Err(StreamError::Os(5)));
    con.handle_raw = 0;
    assert_eq!(console_io::stdio::write(&mut con, 0xFFFF_FFF5, b"x"), Err(StreamError::Os(6)));
}

#[test]
fn write_redirected_passes_bytes_through() {
    // Off the console path nothing is validated or transcoded.
    let mut con = console();
    con.console = false;
    let data = [0xFFu8, 0x00, 0x61];
    let r = console_io::stdio::write(&mut con, 0xFFFF_FFF5, &data);
    assert_eq!(r, Ok(3));
    assert_eq!(con.byte_output, data.to_vec());
    assert!(con.output.is_empty());
}

#[test]
fn stdio_write_and_flush() {
    let mut con = console();
    let out = Stdio::stdout();
    assert_eq!(out.write(&mut con, b"ok"), Ok(2));
    assert_eq!(out.flush(), Ok(()));
}
