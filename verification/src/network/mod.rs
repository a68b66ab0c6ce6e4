pub mod gossip;
pub mod server;
