//! Request-side logic of an Anthropic-compatible gateway in front of Kiro.

pub mod admin;
pub mod blocks;
pub mod call;
pub mod canonical;
pub mod capture;
pub mod events;
pub mod fingerprint;
pub mod json;
pub mod metering;
pub mod numbers;
pub mod profile;
pub mod provider;
pub mod text;
pub mod tokens;
pub mod tool;
pub mod tracker;
pub mod ttl;
pub mod usage;
