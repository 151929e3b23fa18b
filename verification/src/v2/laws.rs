//! What the V2 protocol promises.

pub mod browsers;
pub mod deadlines;
pub mod dwell;
pub mod members;
pub mod memory;
pub mod news;
pub mod placement;
pub mod progress;
pub mod promotions;
pub mod replay;
pub mod sessions;
pub mod terms;
pub mod timing;
pub mod upgrades;
pub mod workers;
