//! Request-side logic of a local reverse proxy in front of an LLM server:
//! compression of chat-completion bodies, correlation of requests with
//! client-side call chains, response-text extraction for the request
//! history, and the small pure helpers of the desktop companion.

pub mod json;
pub mod text;
pub mod compress;
pub mod chain_correlation;
pub mod proxy;
pub mod client_info;
pub mod sort;
pub mod pi_agent;
pub mod chains;
pub mod admin;
pub mod config;
