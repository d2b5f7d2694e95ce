//! A screensaver of worms, one per CPU, that grow with the load of their CPU and crawl over a
//! text terminal.
//!
//! The crate holds everything but the input and output: the readings of the kernel's counters,
//! the clock and the terminal come in as plain values.

pub mod cpu;
pub mod input;
pub mod rng;
pub mod screen;
pub mod shape;
pub mod state;
pub mod text;
pub mod worm;
