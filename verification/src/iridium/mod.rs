//! Iridium downlink decoding.
pub mod bch;
pub mod blobs;
pub mod demod3;
pub mod frame;
pub mod geo;
pub mod locate;
pub mod message;
pub mod ppm;

pub use frame::{parse_line, Frame};
pub use message::{classify, Class, Ira};
