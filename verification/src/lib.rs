//! Bramha: planning, scheduling, caching and access-control logic of a
//! local-first inference database, with its behaviour stated as contracts.

pub mod strings;
pub mod hashing;
pub mod inference;
pub mod middleware;
pub mod models;
pub mod network;
pub mod planner;
