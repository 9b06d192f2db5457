//! A verified broadcast relay: filtering rules, packet rewriting and relay
//! decisions of `bcr`.

pub mod addr;
pub mod config;
pub mod filter;
pub mod interface;
pub mod logging;
pub mod number;
pub mod packet;
pub mod ratelimit;
pub mod relay;
pub mod rewrite;
pub mod socket;
pub mod startup;
pub mod syntax;
pub mod text;
pub mod wire;
