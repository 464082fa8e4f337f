pub mod common;
pub mod config;
pub mod debounce;
pub mod diff;
pub mod error;
pub mod feedback;
pub mod parser;
pub mod report;
pub mod slack;
pub mod snapshot;
pub mod status;
pub mod supervisor;
pub mod text;
