pub mod server;
pub mod snapshot;
pub mod types;
