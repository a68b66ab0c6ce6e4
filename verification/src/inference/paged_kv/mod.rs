pub mod branch_replay;
pub mod prefix_cache;
