//! A liveness service: bind-address configuration, the health reply, and the
//! running/draining lifecycle, each with a machine-checked contract.

pub mod address;
pub mod canonical;
pub mod config;
pub mod health;
pub mod lifecycle;
pub mod text;
