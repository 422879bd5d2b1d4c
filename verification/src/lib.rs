//! A key/value store served over the network: an ordered in-memory table,
//! a log of changes from which the table is rebuilt, and the request
//! handlers of the service.
pub mod client;
pub mod protos;
pub mod server;
pub mod store;
