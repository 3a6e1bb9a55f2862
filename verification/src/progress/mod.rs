//! What the user sees: counts, speeds and the display.

pub mod display;
pub mod ratio;
pub mod speed;
pub mod tracker;

pub use display::ProgressDisplay;
pub use tracker::ProgressTracker;
