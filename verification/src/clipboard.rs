pub mod blobs;
pub mod payload_laws;
pub mod content;
pub mod history;
pub mod io;
pub mod laws;
pub mod registry;
pub mod state;
