//! Decision logic of a loopback port proxy for containers.
//!
//! A container publishes ports on the host. For each of them the proxy binds a
//! socket on a freshly drawn address of `127.0.0.0/8`, at the container's own
//! port number, and relays traffic to the published port on `127.0.0.1`.
//!
//! This crate holds everything that is decided along the way, as verified code:
//! which ports of a container are relayed, how an address is drawn and a bind
//! retried, what a relay does on each network event, and which relays the
//! manager owns. Sockets, timers and tasks belong to the caller, who performs
//! the actions that the state machines here hand out and reports the outcome.
//!
//! - [`info`]: the ports to relay, read from the runtime's reports.
//! - [`connection`]: protocols, loopback addresses, the retrying bind.
//! - [`tcp`], [`udp`]: the relays of one port.
//! - [`proxy`]: the manager of all relays, and the layout of one.
//! - [`text`]: port numbers and port keys as text.

pub mod connection;
pub mod info;
pub mod proxy;
pub mod tcp;
pub mod text;
pub mod udp;
