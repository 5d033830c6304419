//! Median and order statistics by randomized selection (quickselect).
//!
//! Values are `i64`. A caller holding floating-point data maps each value to an
//! integer key that orders the same way, and maps the selected keys back.
pub mod entropy;
pub mod median;
pub mod order;
pub mod select;
