pub mod compact;
pub mod digest;
pub mod keys;
pub mod node;
pub mod purge;
pub mod state;
pub mod store;
