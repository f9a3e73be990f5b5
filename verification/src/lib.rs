//! Core of a terminal market-data dashboard: a fixed-capacity ring buffer of
//! ticks per instrument, time-bucket aggregation into open/close candle
//! series, a bounded ordered hand-off channel between the feed and the render
//! loop, and the render loop's state machine and row-styling decisions.

pub mod channel;
pub mod chart;
pub mod dashboard;
pub mod models;
pub mod price;
pub mod ring;
pub mod style;
pub mod tabs;
