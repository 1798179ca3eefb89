//! Peer-to-peer rollback synchronization engine.
//!
//! Peers run the same deterministic simulation in lockstep.  Each tick a
//! session collects the local player's input, broadcasts it, and advances the
//! simulation with the best available input for every player: the confirmed
//! value where one has arrived, a prediction (the player's last confirmed
//! input) otherwise.  When a late confirmation contradicts a prediction, the
//! session restores a snapshot at or before the mispredicted frame and
//! resimulates forward, which is sound because the step function is a pure
//! function of state and inputs.

pub mod input;
pub mod sim;
pub mod ilog;
pub mod session;
pub mod wire;
