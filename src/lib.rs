//! The core of a single-node MQTT 3.1.1 broker: the wire codec, the topic
//! index with wildcard matching and retained messages, the per-session
//! in-flight tracking of packet ids, the router that applies client events
//! to broker state, and the per-connection state machine.
//!
//! Everything here is verified. Sockets, channels, timers and tasks live in
//! the program around the library, which feeds it bytes and events and
//! carries out the actions it returns.

pub mod packet;
pub mod codec;
pub mod decode;
pub mod topic;
pub mod qos;
pub mod router;
pub mod connection;
pub mod roundtrip;
