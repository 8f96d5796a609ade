//! Month calendars laid out in seven weekday rows, Monday first.
pub mod date;
pub mod grid;
pub mod render;
