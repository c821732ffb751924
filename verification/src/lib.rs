//! Core of a hidden-information maze-exploration game server: maze generation
//! as a random spanning tree, fog-of-war masking, a signed state-channel
//! protocol, a decaying treasure clock, and the ledger transaction records
//! that settle or dispute a game on an external chain.

pub mod codec;
pub mod commitment;
pub mod crypto;
pub mod errors;
pub mod maze;
pub mod maze_gen;
pub mod player;
pub mod rng;
pub mod server;
pub mod state_channel;
pub mod transactions;
pub mod treasure;
