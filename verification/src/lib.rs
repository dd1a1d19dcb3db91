//! Receiver logic for GNSS and Iridium signals.
pub mod beidou;
pub mod beidou_d1;
pub mod bits;
pub mod decoder;
pub mod discipline;
pub mod double;
pub mod dsp_calib;
pub mod e5;
pub mod fusion;
pub mod galileo_inav;
pub mod glonass;
pub mod glonass_nav;
pub mod gps;
pub mod inmarsat;
pub mod iridium;
pub mod lfsr;
pub mod order;
pub mod pick;
pub mod sbas;
pub mod text;
