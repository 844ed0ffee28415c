//! Turns a user-supplied location string into a geographic coordinate and
//! models the fuel-price data that is fetched for that coordinate.
//!
//! Coordinates are held exactly, as integer multiples of
//! 1/(3600 * 10^15) of a degree, so that both decimal notation and
//! degree/minute/second notation convert without rounding.

pub mod args;
pub mod digits;
pub mod locator;
pub mod tankerkoenig;
