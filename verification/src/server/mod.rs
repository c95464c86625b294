pub mod engine;
pub mod error;
pub mod handler;
