//! Get server addresses from QuakeWorld master servers.
//!
//! A master server answers a fixed UDP query with a datagram that starts
//! with a six-byte header and continues with packed six-byte records, one
//! per game server: four raw IP octets followed by a big-endian port.
//! This crate decodes such responses into [`ServerAddress`] values and
//! normalizes the result into a sorted list without duplicates; the socket
//! work itself is left to the caller.

pub mod command;
pub mod server_address;

pub use crate::command::parse_servers_response;
pub use crate::command::server_addresses;
pub use crate::command::sorted_and_unique;
pub use crate::command::ResponseError;
pub use crate::server_address::RawServerAddress;
pub use crate::server_address::ServerAddress;
