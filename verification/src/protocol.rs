//! The messages that client, server and terrain generator send each other.

use crate::block_position;
use crate::entity::EntityId;
use crate::lod::LODIndex;
use vstd::prelude::*;

verus! {

/// The identifier that the server leases to one client.
#[derive(Debug, PartialEq, Eq, Hash, Copy, Clone, Structural)]
pub struct ClientId(pub u32);

/// Messages the client sends to the server. `W` is a walking direction and
/// `R` a rotation.
#[derive(Debug, PartialEq, Eq)]
pub enum ClientToServer<W, R> {
    /// Notify the server that the client exists, and tell it where the
    /// client listens.
    Init(String),
    /// Ask the server to create a new player.
    AddPlayer(ClientId),
    /// End the session.
    Quit,
    /// [Try to] start a jump for the player.
    StartJump,
    /// [Try to] stop a jump for the player.
    StopJump,
    /// Add a constant acceleration to the player.
    Walk(W),
    /// Rotate the player by some amount.
    RotatePlayer(R),
    /// Ask the server to send a block of terrain.
    RequestBlock(block_position::T, LODIndex),
}

/// Messages the server sends to the client. `P` is a position in the world
/// and `B` a block of terrain.
#[derive(Debug, PartialEq, Eq)]
pub enum ServerToClient<P, B> {
    /// Provide the client a unique id to tag its messages.
    LeaseId(ClientId),
    /// Complete an `AddPlayer` request.
    PlayerAdded(EntityId, P),
    /// Provide a block of terrain to the client.
    AddBlock(block_position::T, B, LODIndex),
}

/// Why a block of terrain is being loaded.
#[derive(Debug, PartialEq, Eq, Hash, Copy, Clone, Structural)]
pub enum LoadReason {
    /// For the server's own simulation, on behalf of the given entity.
    Local(EntityId),
    /// To be sent to the client.
    ForClient,
}

/// Messages the server sends to the terrain generator.
#[derive(Debug, PartialEq, Eq, Hash, Copy, Clone, Structural)]
pub enum ServerToGaia {
    /// Generate the block at a position and level of detail.
    Load(block_position::T, LODIndex, LoadReason),
}

} // verus!
