//! Per-station minimum, mean and maximum over `name;value` measurement lines.
//!
//! Measurements are held as whole billionths in 128 bits and summed in 192,
//! so every sum is exact and the aggregate of a set of lines does not depend
//! on how the lines were grouped. A value that is written finer than a
//! billionth is rounded to the nearest one when it is read; the numbers of
//! the summary are rounded to tenths when it is rendered.

pub mod aggregate;
pub mod line;
pub mod render;
pub mod station;
pub mod table;
pub mod tally;
pub mod text;
pub mod wide;
