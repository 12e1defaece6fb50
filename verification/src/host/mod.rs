//! The host side: the device seam and the reactor's decisions.

pub mod device;
pub mod reactor;
pub mod shell;
