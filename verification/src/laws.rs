//! What the operations are for: laws over their inputs and results, in words of their own. Each
//! states what a result must satisfy, or how results relate, for all inputs.

pub mod strings;
pub mod wire;
pub mod http;
pub mod config;
pub mod interface;
pub mod packets;
pub mod messages;
pub mod lists;
pub mod sources;
pub mod dispatch;
pub mod capture;
pub mod reactor;
pub mod words;
