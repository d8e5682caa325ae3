//! Raw L2 packet capture: the kernel filters, the walk over a BPF read batch, and what a receive on
//! a packet socket yields. The descriptors themselves are the program's.

pub mod af_packet;
pub mod bpf;
pub mod filter;
