//! Core of a real-time state-replication library for multiplayer
//! simulations: an authoritative server's world state is carried to
//! clients over an unreliable datagram channel as periodic full
//! snapshots plus delta-encoded updates, and the clients reassemble a
//! smoothed view through a jitter buffer.

pub mod bits;
pub mod bitmask;
pub mod client;
pub mod components;
pub mod controller;
pub mod delta;
pub mod packet;
pub mod world;
pub mod server;
pub mod transport;
pub mod wire;

pub use bitmask::NetworkBitmask;
pub use controller::NetworkController;
