//! Greedy thread-art planner.
//!
//! The library turns a grayscale image into an ordered sequence of
//! anchor-to-anchor straight lines: drawing the lines in order visually
//! approximates the source image.  All intensity arithmetic is carried out in
//! fixed-point integers (see [`fixed`]) so that every step of the planner is
//! fully specified and machine-checked.

pub mod fixed;
pub mod planner;
pub mod raster;
pub mod score;
pub mod strategies;

pub use fixed::SCALE;
pub use planner::ThreadPlanner;
pub use planner::PlanningStrategy;
pub use strategies::{CountTracker, LossTracker};
