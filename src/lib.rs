//! Incremental statement segmentation and a command ledger for turning a
//! streamed text response into backend-executable statements.
pub mod command_helper;
pub mod command_response;
pub mod complete;
pub mod context;
pub mod foundry_interface;
pub mod split_commands;
pub mod text;
