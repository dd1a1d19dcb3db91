//! GPS signals, navigation data and broadcast orbits.

pub mod acquire;
pub mod broadcast;
pub mod ca_code;
pub mod ephemeris;
pub mod l5_code;
pub mod lnav;
pub mod pvt;
pub mod rinex;
pub mod sbas_code;
pub mod track;
pub mod verdict;
