//! The decisions of a program that follows growing files over HTTP.

pub mod content_range;
pub mod cursor;
pub mod decimal;
pub mod forwarder;
pub mod host;
pub mod peers;
pub mod punycode;
pub mod requests;
pub mod routing;
pub mod status;
pub mod target;
pub mod tls;
