//! An in-process module host: a topic-pattern matcher with a publish/subscribe
//! bus, a registry of named services reached through non-owning handles, and
//! the state machines that carry calls and subscriptions across a foreign
//! calling convention.
pub mod bridge;
pub mod error;
pub mod events;
pub mod modular;
pub mod pattern;
pub mod registry;
pub mod request;
