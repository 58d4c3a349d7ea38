//! Per-station least, mean and greatest temperature over a buffer of
//! `name;reading` records.
//!
//! A buffer is split into lines ([`lines`]), each line is decoded
//! ([`decode`]) and folded into the running statistics of its station
//! ([`acc`], [`stats`]). A buffer may be cut into parts that are worked on
//! independently ([`chunks`]) and whose statistics are merged; [`tally`]
//! does either and states that both give the same. [`report`] turns the
//! statistics into the figures that are shown and into the text of the
//! summary.

pub mod acc;
pub mod ascii;
pub mod chunks;
pub mod decode;
pub mod lines;
pub mod name;
pub mod report;
pub mod rounding;
pub mod stats;
pub mod tally;
