//! A local console for mirroring and controlling phones: the verified
//! parsers, formatters, decision steps and local store behind its commands.
pub mod base64;
pub mod console;
pub mod http;
pub mod ios;
pub mod json;
pub mod number;
pub mod store;
pub mod text;
