//! A one-way bridge from a byte-stream source to any number of network
//! clients: the verified core of a serial-to-TCP broadcaster.
//!
//! The library holds the decisions; the program around it owns the device,
//! the sockets and the threads.
pub mod delivery;
pub mod line;
pub mod reader;
pub mod registry;
pub mod writer;
