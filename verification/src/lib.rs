//! A client for writing points to InfluxDB and querying it: the line
//! protocol, the requests, the batches of a write and the meaning of the
//! server's answers, without the transport that carries them.

pub mod client;
pub mod entries;
pub mod hurl;
pub mod measurement;
pub mod point;
pub mod text;

pub use client::{Credentials, InfluxClient};
