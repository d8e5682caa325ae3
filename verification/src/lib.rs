//! reflector: reflects link-local service traffic (Wake-on-LAN, mDNS, SSDP and
//! an optional DIAL proxy) between two network interfaces.
//!
//! This crate is the reflector's logic: packet and HTTP parsing, frame
//! building, configuration, routing tables and event bookkeeping. It does no
//! I/O; the program around it opens the sockets and hands plain values in.

pub mod bytes;
pub mod capture;
pub mod config;
pub mod dispatch;
pub mod error;
pub mod interface;
pub mod laws;
pub mod logging;
pub mod net;
pub mod reactor;
pub mod reflector;
pub mod text;
