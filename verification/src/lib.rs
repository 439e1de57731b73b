//! The logic of a small HTTP server for a Raspberry Pi Pico 2 W that reports live
//! statistics of the board: the choice of page for a request, the conversion of the
//! temperature sensor sample, the JSON report written into a fixed-size stack buffer,
//! the decoding of pending external interrupts and the blinking of the status LED.
use vstd::prelude::*;

pub mod irq;
pub mod led;
pub mod digits;
pub mod routing;
pub mod stats;
pub mod temperature;
pub mod text;

verus! {

} // verus!
