//! Routing rules and settings of a local HTTP proxy client for a
//! WebSocket-to-TCP gateway: which hosts go through the gateway (gfwlist and
//! custom domain rules), how the effective settings are chosen, and the
//! small decisions taken at startup.

pub mod text;
pub mod domain_set;
pub mod paths;
pub mod routing_rules;
pub mod cli;
pub mod settings;
pub mod startup;
