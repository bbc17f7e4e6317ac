//! A small chat relay: a roster of joined users with unique names, and a
//! registry of subscriber queues that fans each published message out to
//! every live subscriber and evicts those that can no longer take it.

pub mod client;
pub mod message;
pub mod registry;
pub mod roster;
