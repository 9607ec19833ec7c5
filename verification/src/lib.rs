//! Replay engine: rebuilds the state of a recorded session, tick by tick,
//! from its time-stamped event log, and answers what the state was at a
//! given time.

pub mod event;
pub mod state;
pub mod timeline;
