//! Flow-centric proxy core: policy, DNS, wire formats and relay decisions.

pub mod text;
pub mod bytes;
pub mod net;
pub mod cidr;
pub mod error;
pub mod time;
pub mod domain_set;
pub mod flow;
pub mod plan;
pub mod policy;
pub mod runtime;
pub mod blocklist;
pub mod dns;
pub mod transport;
pub mod proxy;
pub mod address;
pub mod trojan;
pub mod protocol;
pub mod outbound;
pub mod idle;
pub mod datagram;
pub mod trojan_datagram;
pub mod config;
pub mod dispatch;
pub mod socks5;
pub mod transparent;
pub mod http_connect;
pub mod server;
pub mod cli;
pub mod platform;
pub mod models;
