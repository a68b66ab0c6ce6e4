pub mod cluster;
pub mod cost_model;
pub mod optimizer;
pub mod policy;
pub mod scheduler;
