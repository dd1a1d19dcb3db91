//! Ranging codes of the signals around 1176.45 MHz.

pub mod b2a_code;
pub mod e5a_code;
