//! Core logic of a command-line client for a channel-based messaging service:
//! the channel hierarchy with its path cursor and listings, the batched
//! subscription update, and the small state holders of the terminal front end.

pub mod app;
pub mod cli;
pub mod config;
pub mod error;
pub mod text;
pub mod token;
pub mod ui;
pub mod utils;
