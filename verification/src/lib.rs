//! An interpreter for a small eight-instruction tape language.
//!
//! A program is a flat byte string. Eight bytes are instructions and every
//! other byte is commentary. The machine is a tape of `CELL_COUNT` byte cells
//! and one data pointer; both are bounded, and leaving a bound is an error,
//! never a wrap-around.
//!
//! * [`brackets`] says which loop markers belong together.
//! * [`machine`] is the mathematical model: what one instruction does, and
//!   what a bounded run of instructions does.
//! * [`interpreter`] is the executable engine, proved against that model.
//! * [`utils`] holds the map inversion that turns the jump table around.
//! * [`console`] is the terminal: keys come in through the `getch` crate,
//!   characters go out to standard output.

pub mod brackets;
pub mod console;
pub mod interpreter;
pub mod machine;
pub mod utils;
