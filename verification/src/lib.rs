pub mod error;
pub mod order;
pub mod store;
pub mod text;
pub mod config;
pub mod completions;
pub mod source;
pub mod engine;
pub mod testing;
pub mod daemon;
