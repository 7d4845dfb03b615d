//! Dice notation, roll modes and exact outcome distributions.

pub mod dispatch;
pub mod distribution;
pub mod mode;
pub mod model;
pub mod notation;
pub mod roller;
