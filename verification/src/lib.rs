//! A minimal static-file HTTP server: request routing, path resolution,
//! content types, directory listings and access-log formatting, with the
//! decisions proved against their specifications.

pub mod text;
pub mod security;
pub mod content;
pub mod config;
pub mod logging;
pub mod response;
pub mod server;
