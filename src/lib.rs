//! A VLAN-aware, MAC-learning Ethernet switch core: frame codec, per-port
//! VLAN policy, forwarding table with aging and LRU eviction, and the
//! per-frame forwarding decision.

pub mod frame;
pub mod vlan;
pub mod table;
pub mod port;
pub mod engine;
