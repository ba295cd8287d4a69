//! The core of a JSON-RPC proxy that puts one address in front of many upstream endpoints per chain.
//!
//! It reads no socket, no file and no monotonic clock: a program around it does, and hands what came
//! of it to the steps that `RpcProxy` takes.

pub mod auth;
pub mod chain;
pub mod config;
pub mod courses;
pub mod endpoint;
pub mod exchange;
pub mod health;
pub mod json;
pub mod laws;
pub mod lookup;
pub mod lookup_laws;
pub mod proxy;
pub mod step_laws;
pub mod string_map;
pub mod text;
pub mod version;

pub use config::load_config_from_str;
pub use config::ChainsConfig;
pub use proxy::RpcProxy;
