//! Resolution engine that turns a declarative DNS zone description into
//! normalized, validated forward and reverse zones.
pub mod args;
pub mod constants;
pub mod error;
pub mod network;
pub mod order;
pub mod parser;
pub mod record;
pub mod serial;
pub mod text;
pub mod transform;
pub mod validation;
