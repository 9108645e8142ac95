//! The terminal.
//!
//! This file declares the terminal handle of the `getch` crate and the error
//! type of `std::io`, says what is assumed of the two functions of `getch`
//! that the engine calls, and wraps the one write to standard output. None
//! of these is proved, and none claims anything of what the terminal does.

use std::io::Write;
use vstd::prelude::*;

verus! {

/// The terminal handle `getch::Getch`. The engine only carries it from
/// `getch::Getch::new` to `getch::Getch::getch`.
#[verifier::external_type_specification]
#[verifier::external_body]
pub struct ExGetch(getch::Getch);

/// The error `std::io::Error`. The engine only tells it apart from a byte
/// that was read.
#[verifier::external_type_specification]
#[verifier::external_body]
pub struct ExIoError(std::io::Error);

/// `getch::Getch::new` switches the terminal to unbuffered input without
/// echo, where standard input is a terminal, and hands back a handle that
/// restores the old mode when it is dropped. Nothing is assumed of the handle.
pub assume_specification[ getch::Getch::new ]() -> (terminal: getch::Getch)
;

/// `getch::Getch::getch` blocks until standard input delivers a byte, skips
/// escape sequences, and hands the byte back, zero at the end of input, or
/// the error of the failed read. Which of these happens is up to the
/// terminal, so nothing is assumed of the result.
pub assume_specification[ getch::Getch::getch ](terminal: &getch::Getch) -> (key: Result<
    u8,
    std::io::Error,
>)
;

/// Writes the character whose code is `byte` to standard output with
/// `write!` on `std::io::stdout`. A failed write is ignored. Nothing is
/// returned, so nothing is claimed.
#[verifier::external_body]
pub(crate) fn put_char(byte: u8) {
    let _ = write!(std::io::stdout(), "{}", char::from(byte));
}

/// Reads one key from the terminal: `Some` byte, or `None` when the read
/// failed.
pub(crate) fn read_key() -> (key: Option<u8>) {
    let terminal = getch::Getch::new();
    key_of(terminal.getch())
}

/// The key that a read of the terminal stands for: the byte that was read,
/// or `None` where the read failed, whatever the error.
pub fn key_of(read: Result<u8, std::io::Error>) -> (key: Option<u8>)
    ensures
        read matches Ok(byte) ==> key == Some(byte),
        read is Err ==> key is None,
{
    match read {
        Ok(byte) => Some(byte),
        Err(_) => None,
    }
}

} // verus!
