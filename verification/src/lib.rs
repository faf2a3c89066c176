//! Verified DNS-over-HTTPS message handling: DNS wire-format inspection and
//! rewriting, the JSON view of DNS messages, and small helpers of the proxy.

pub mod error;
pub mod wire;
pub mod dns;
pub mod text;
pub mod dns_json;
pub mod errors;
pub mod globals;
pub mod utils;
pub mod telemetry;
