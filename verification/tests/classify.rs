//! Handle classification, the stream constructors, and the read/write
//! half adapters.

use console_io::console::{Handle, STD_ERROR_HANDLE, STD_INPUT_HANDLE, STD_OUTPUT_HANDLE};
use console_io::loopback::ScriptedConsole;
use console_io::owns_raw::OwnsRaw;
use console_io::read_write::{AsRawReadWriteFd, RawFd, ReadHalf, WriteHalf};
use console_io::stdio::{get_handle, is_console, Stdio};

#[test]
fn classification_is_idempotent() {
    // P6: the same handle, probed repeatedly in an unchanged state,
    // classifies the same way.
    let mut con = ScriptedConsole::new();
    let h = Handle { raw: 7 };
    assert_eq!(is_console(&con, h), true);
    assert_eq!(is_console(&con, h), true);
    con.console = false;
    assert_eq!(is_console(&con, h), false);
    assert_eq!(is_console(&con, h), false);
}

#[test]
fn handle_lookup() {
    let con = ScriptedConsole::new();
    assert_eq!(get_handle(&con, STD_INPUT_HANDLE), Ok(Handle { raw: 7 }));
}

#[test]
fn stream_constructors() {
    assert_eq!(Stdio::stdin().id, STD_INPUT_HANDLE);
    assert_eq!(Stdio::stdout().id, STD_OUTPUT_HANDLE);
    assert_eq!(Stdio::stderr().id, STD_ERROR_HANDLE);
    assert_eq!(Stdio::stdin().pending, None);
}

struct TwoEnded {
    reader: RawFd,
    writer: RawFd,
}

impl AsRawReadWriteFd for TwoEnded {
    fn as_raw_read_fd(&self) -> RawFd {
        self.reader
    }

    fn as_raw_write_fd(&self) -> RawFd {
        self.writer
    }
}

impl OwnsRaw for TwoEnded {}

#[test]
fn read_write_halves() {
    let duo = TwoEnded { reader: 3, writer: 4 };
    let rh = ReadHalf::new(&duo);
    let wh = WriteHalf::new(&duo);
    assert_eq!(rh.as_raw_fd(), 3);
    assert_eq!(wh.as_raw_fd(), 4);
}
