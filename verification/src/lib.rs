//! Salvo combat simulation: Hughes' salvo model evaluated step by step,
//! with the per-step decisions (threat generation, interception doctrine,
//! terminal impact, aggregation) verified against their specifications.

pub mod draws;
pub mod engine;
pub mod error;
pub mod models;
pub mod validation;
pub mod web;
