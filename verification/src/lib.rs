//! A small authenticated messaging backend: users register and log in,
//! obtain a bearer token, and exchange direct messages.
//!
//! The crate verifies the core of the service: credential hashing and
//! verification, issuing and validating signed identity tokens, the
//! bearer-header guard, and the user and message repositories with their
//! conversation-threading rules. HTTP routing and process wiring live
//! outside the library.

pub mod auth;
pub mod db_helper;
pub mod messages;
pub mod routes;
pub mod token;
