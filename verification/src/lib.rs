//! Serial Keel: a server which eases working with TTYs.
//!
//! This crate holds the verified core of the server: the data model of
//! endpoints, labels, users and configuration, the actions and responses
//! exchanged with clients, the line codec used on serial ports, the event
//! log, and the control center which decides who observes and who controls
//! which endpoint.

/// Users connecting to the server.
pub mod user;

/// Endpoints and their labels.
pub mod endpoint;

/// Mock endpoint identities and loopback.
pub mod mock;

/// Server configuration.
pub mod config;

/// Serial messages and the line codec.
pub mod serial;

/// Events the server emits.
pub mod events;

/// The control center: who observes and who controls which endpoint.
pub mod control_center;

/// Actions users ask of the server, and the server's responses.
pub mod actions;

/// How a client routes what the server says.
pub mod client;

/// The command line's examples.
pub mod cli;

/// Errors of this library.
pub mod error;

/// The desktop frontend's state.
pub mod frontend;

/// Text rendering of the library's values.
pub mod text;
