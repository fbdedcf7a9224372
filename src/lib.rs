//! A screener for the Relative Strength Index of closing-price series.
//!
//! Prices are fixed-point integers in units of 10^-8. The smoothed averages
//! carry nine more fraction digits and are rounded up at each step, so that
//! an average is zero exactly when the unrounded one is; the index is
//! reported in hundredths, rounded down, and compared with thresholds
//! exactly, on the averages. All arithmetic is proved free of overflow.

pub mod price;
pub mod rsi;
pub mod screen;
