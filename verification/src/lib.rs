//! Verified building blocks of a small networking toolkit: a userspace
//! TCP/IP stack (Ethernet, ARP, IPv4, ICMP, TCP), a DNS message codec and
//! cache, ICMP probes for ping/traceroute, HTTP helpers of a small web
//! server and the SOCKS5 wire format.

pub mod util;
pub mod keyed;
pub mod clock;
pub mod arp;
pub mod ethernet;
pub mod ip;
pub mod tcp;
pub mod socket;
pub mod ping;
pub mod traceroute;
pub mod dns_message;
pub mod dns_cache;
pub mod dns_resolve;
pub mod socks5;
pub mod text;
pub mod http;
pub mod addr;
pub mod caddyfile;
pub mod http_server;
pub mod stack;
pub mod resolver;
