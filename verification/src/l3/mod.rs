//! What arrives from and departs to the device as raw IP.

pub mod fragment;
pub mod packet;
pub mod path;
pub mod pending;
pub mod reassembler;
pub mod reassembly;
pub mod report;
pub mod udp;
pub mod wheel;
pub mod emit;
