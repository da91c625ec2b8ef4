//! Local-first AI usage analytics: transcript parsing, pricing, config
//! integrity checks and usage rollups, with their behaviour stated as
//! contracts.

pub mod text;
pub mod json;
pub mod pricing;
pub mod collectors;
pub mod store;
pub mod rollup;
pub mod waste;
pub mod activity;
pub mod sort;
pub mod integrity;
pub mod plugins;
pub mod dashboard;
pub mod laws;
