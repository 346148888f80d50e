//! Round-robin and smooth weighted round-robin selection of servers.
pub mod rr;
pub mod wrr;
