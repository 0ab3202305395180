//! Hex-grid field-of-view: a verified recursive shadow-casting engine.
//!
//! Given an origin cell, a maximum range and an opacity test, the engine
//! produces, one cell per pull, exactly the set of hex cells visible from
//! the origin: walls are visible themselves but block what lies behind them.

pub mod fov;
pub mod hex;
pub mod terrain;
pub mod walk;
pub mod widget;
