//! Drive a JTAG scan chain at three levels: a `Cable` moves bits, a `JtagSM` tracks the state
//! of the TAP controllers and moves them along shortest paths, and `Taps` addresses one TAP of
//! a chain as if it were alone.
//!
//! The command streams of the supported adapters are built here too: J-Link (`jlink`), FTDI
//! MPSSE (`mpsse`) and bit-banged adapters (`bitbang`). Moving the bytes to and from a device
//! is left to the caller.
pub mod bits;
pub mod cable;
pub mod statemachine;
pub mod taps;
pub mod jlink;
pub mod mpsse;
pub mod bitbang;
