//! # What holds of the engine as a whole
//!
//! Each public proof function here states one law.

pub mod crashes;
pub mod deliveries;
pub mod determinism;
pub mod disposability;
pub mod divergence;
pub mod effects;
pub mod faithfulness;
pub mod identity;
pub mod log;
pub mod logging;
pub mod orders;
pub(crate) mod passes;
pub mod readings;
pub mod records;
pub mod recovery;
pub mod rendering;
pub mod repeatability;
pub mod reports;
pub mod requests;
pub mod tasks;
pub mod turns;
pub mod waiting;
