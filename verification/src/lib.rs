//! Verified driver core for a pair of AS1130 LED-matrix driver chips on a
//! shared two-wire bus.
//!
//! The crate translates display intents (which picture to show, brightness,
//! movie settings, frame contents) into the exact register writes and
//! page-addressed buffers the chips require. The physical transport is
//! injected through the [`bus::Bus`] trait; everything the library sends is
//! captured in the trait's ghost write log, so every operation's contract
//! states the precise byte traffic it produces.

pub mod as1130;
pub mod bus;
pub mod frame;
pub mod glasses;
