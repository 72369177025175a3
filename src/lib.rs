//! Scatter-gather parallel map: chunk planning, per-chunk tasks, the ordered
//! result buffer with its completion accounting, and the pool registry.
pub mod error;
pub mod plan;
pub mod registry;
pub mod gather;
pub mod dispatch;
