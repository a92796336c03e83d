//! A transparent proxy for a Redis-style key-value store.
//!
//! The proxy accepts client connections, decodes RESP-framed commands from the
//! client byte stream, intercepts authentication attempts (answering them
//! locally with a fixed success reply), authenticates to the backend with its
//! own configured credentials, and forwards all other traffic verbatim.

pub mod config;
pub mod protocol;
pub mod proxy;
pub mod resp;

pub use config::Config;
pub use proxy::RedisProxy;
