//! Named groups of audio output devices, with a cyclable current selection.
//!
//! The library holds the group store and its invariants, the cycling engine,
//! and the decisions of each command. Platform work (device enumeration,
//! switching the default device, shortcut registration, durable storage,
//! notifications) is done by the caller, which hands the outcomes in as
//! plain values.
pub mod state;
pub mod cycling;
pub mod commands;
pub mod platform;
pub mod shortcuts;
pub mod persistence;
