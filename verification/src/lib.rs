//! WS2811 LED strings driven through an SPI bus.
//!
//! A WS2811 reads one data line on which every bit is a pulse: a short high
//! time for a zero, a long high time for a one. With the bus clocked at
//! 3 MHz (up to 3.44 MHz) one bus bit lasts a third of a microsecond, and
//! four bus bits make one pulse: `1000` is a zero, `1100` is a one.
//!
//! [`encoding`] turns a channel value into bus bytes, [`frame`] lays out the
//! bytes of a whole frame, [`transport`] says what a bus is to the driver
//! and what a driver leaves on it, and [`driver`] holds [`Ws2811`] itself.
//! [`recorder`] is a bus for where there is none.

pub mod encoding;
pub mod frame;
pub mod transport;
pub mod driver;
pub mod recorder;

pub use crate::driver::Ws2811;
pub use crate::frame::Rgb8;
pub use crate::recorder::{Fault, Recorder};
pub use crate::transport::{Transfer, Transport};
