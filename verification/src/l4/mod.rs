//! The fourth layer: terminated TCP connections and relayed datagrams.

pub mod relay;
pub mod stream;
pub mod terminate;
