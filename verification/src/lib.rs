//! Coordinates for time axes: linear mapping of dates, date-times and
//! durations onto a pixel range, and selection of readable tick marks.

pub mod arith;
pub mod calendar;
pub mod date;
pub mod datetime;
pub mod duration;
pub mod instant;
pub mod monthly;
pub mod period;
pub mod yearly;
