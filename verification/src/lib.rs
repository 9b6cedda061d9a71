//! Server-side logic of a small multiplayer game: connection bookkeeping,
//! the authentication handshake between the network layer and the account
//! database, and the login form's reactions to input.

pub mod authentication;
pub mod authentication_ui;
pub mod connection;
pub mod postgres;
pub mod quic;
