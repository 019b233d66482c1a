//! Rollback netcode for lockstep deterministic simulations.
//!
//! Peers run the same simulation and exchange per-frame inputs over a lossy
//! channel. Inputs are kept in frame-indexed histories; the client decides on
//! every tick whether to advance, to advance on a predicted input, to rewind
//! and replay, or to wait.

pub mod controls;
pub mod game;
pub mod input_history;
pub mod net_client;
pub mod netcode;
