//! The signals that drive the LED matrix hardware.
pub mod hc595;
pub mod osl641505;
