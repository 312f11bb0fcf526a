//! Tag-based, time-boxed, multi-party-approval (MPA) delegation tickets.
//!
//! An [`ticket::ApprovalTicket`] records that one principal (the giver)
//! grants another (the receiver) a temporary elevated capability.  The
//! ticket is stored as the value of a reserved tag on the receiver's
//! identity record.  This crate holds the verified core: the text codec
//! for tickets, the tag adapter around the reserved key, the ticket
//! lifecycle operations over a principal directory, and the stale-grant
//! eviction sweep with its organisation-tree scope discovery.

pub mod clock;
pub mod config;
pub mod mirror;
pub mod directory;
pub mod manager;
pub mod sweep;
pub mod tags;
pub mod text;
pub mod ticket;


