//! The decision logic of the Karst node agent.
//!
//! Everything the daemon decides is here, as functions and state machines over
//! plain values; sockets, files, processes, and cryptographic sessions belong
//! to the program around it.

pub mod addr;
pub mod bedrock;
pub mod bytes;
pub mod candidates;
pub mod cli;
pub mod config;
pub mod control;
pub mod crypto;
pub mod disco;
pub mod dns;
pub mod engine;
pub mod enrollment;
pub mod exit_node;
pub mod exit_policy;
pub mod filter;
pub mod flow;
pub mod gateway;
pub mod home;
pub mod ipc;
pub mod metrics_http;
pub mod nat64;
pub mod random;
pub mod routing;
pub mod secrets;
pub mod text;
