//! What the server makes of the messages it receives.

use crate::block_cache::BlockCache;
use crate::block_position;
use crate::entity::EntityId;
use crate::geometry::Point3;
use crate::lod::LODIndex;
use crate::protocol::{ClientToServer, LoadReason, ServerToGaia};
use crate::terrain::{block_in_world, is_out_of_range, out_of_range};
use vstd::prelude::*;

verus! {

/// Messages the terrain generator sends to the server.
#[derive(Debug, PartialEq, Eq, Hash, Copy, Clone, Structural)]
pub enum GaiaToServer {
    /// The block at a position and level of detail was generated and is
    /// kept now.
    Loaded(block_position::T, LODIndex, LoadReason),
}

/// What the server knows of its player.
pub struct Player {
    pub is_jumping: bool,
}

/// The part of the server's state that decides what becomes of a message.
pub struct Server<B> {
    pub player: Player,
    /// The generated blocks.
    pub blocks: BlockCache<B>,
    /// The world spans `[-2^lg_extent, 2^lg_extent)` along each axis.
    pub lg_extent: i16,
}

/// What the server's loop has to do about a message. `W` is a walking
/// direction and `R` a rotation.
#[derive(Debug, PartialEq, Eq, Structural)]
pub enum Action<W, R> {
    /// Nothing at all.
    Nothing,
    /// Tell the client about the world as it is.
    InformClient,
    /// End the loop.
    Quit,
    /// Give the player the upward acceleration of a jump.
    StartJump,
    /// Take the upward acceleration of a jump from the player.
    StopJump,
    /// Let the player walk.
    Walk(W),
    /// Let the player turn.
    Rotate(R),
    /// Send the kept block for this position and level to the client.
    SendBlock(block_position::T, LODIndex),
    /// Send this request to the terrain generator.
    Generate(ServerToGaia),
    /// Hand the kept block for this position and level to the simulation,
    /// on behalf of this entity.
    LoadLocal(block_position::T, LODIndex, EntityId),
    /// Report that this position and level lie outside the world.
    OutOfRange(block_position::T, LODIndex),
}

/// What becomes of a request for the block at `position` and `lod`: a
/// request out of range is refused, a kept block is delivered at once, and
/// any other block is to be generated first, whatever its level.
pub open spec fn requested<W, R, B>(
    blocks: Map<(Point3<i32>, LODIndex), B>,
    lg_extent: i16,
    position: block_position::T,
    lod: LODIndex,
) -> Action<W, R> {
    if out_of_range(lg_extent, position@, lod) {
        Action::OutOfRange(position, lod)
    } else if blocks.contains_key((position@, lod)) {
        Action::SendBlock(position, lod)
    } else {
        Action::Generate(ServerToGaia::Load(position, lod, LoadReason::ForClient))
    }
}

/// A request for a block that is kept is answered with that block, and a
/// second request, with nothing outdated in between, with the same block:
/// nothing is generated for either.
pub proof fn lemma_request_twice<W, R, B>(
    blocks: Map<(Point3<i32>, LODIndex), B>,
    lg_extent: i16,
    position: block_position::T,
    lod: LODIndex,
)
    requires
        !out_of_range(lg_extent, position@, lod),
        blocks.contains_key((position@, lod)),
    ensures
        requested::<W, R, B>(blocks, lg_extent, position, lod) == Action::<W, R>::SendBlock(
            position,
            lod,
        ),
{
}

/// A request for a block in the world at a level past the last is handed
/// to the terrain generator, like every request for a block that is not
/// kept.
pub proof fn lemma_request_past_last_level<W, R, B>(
    blocks: Map<(Point3<i32>, LODIndex), B>,
    lg_extent: i16,
    position: block_position::T,
    lod: LODIndex,
)
    requires
        block_in_world(lg_extent, position@),
        !lod.valid(),
        !blocks.contains_key((position@, lod)),
    ensures
        requested::<W, R, B>(blocks, lg_extent, position, lod) == Action::<W, R>::Generate(
            ServerToGaia::Load(position, lod, LoadReason::ForClient),
        ),
{
}

/// A request for a block outside the world is refused, whatever is kept:
/// it never becomes a request to the terrain generator.
pub proof fn lemma_request_out_of_range<W, R, B>(
    blocks: Map<(Point3<i32>, LODIndex), B>,
    lg_extent: i16,
    position: block_position::T,
    lod: LODIndex,
)
    requires
        out_of_range(lg_extent, position@, lod),
    ensures
        requested::<W, R, B>(blocks, lg_extent, position, lod) == Action::<W, R>::OutOfRange(
            position,
            lod,
        ),
{
}

/// What the server's loop has to do about the client's message `up`.
pub open spec fn client_action<W, R, B>(
    up: ClientToServer<W, R>,
    is_jumping: bool,
    blocks: Map<(Point3<i32>, LODIndex), B>,
    lg_extent: i16,
) -> Action<W, R> {
    match up {
        ClientToServer::Init(_) => Action::InformClient,
        ClientToServer::AddPlayer(_) => Action::Nothing,
        ClientToServer::Quit => Action::Quit,
        ClientToServer::StartJump => if is_jumping {
            Action::Nothing
        } else {
            Action::StartJump
        },
        ClientToServer::StopJump => if is_jumping {
            Action::StopJump
        } else {
            Action::Nothing
        },
        ClientToServer::Walk(v) => Action::Walk(v),
        ClientToServer::RotatePlayer(v) => Action::Rotate(v),
        ClientToServer::RequestBlock(position, lod) => requested(blocks, lg_extent, position, lod),
    }
}

/// Whether the player is jumping once the client's message `up` was
/// applied.
pub open spec fn jumping_after<W, R>(up: ClientToServer<W, R>, is_jumping: bool) -> bool {
    match up {
        ClientToServer::StartJump => true,
        ClientToServer::StopJump => false,
        _ => is_jumping,
    }
}

/// Applies a message of the client to the server's state. Returns whether
/// the server's loop goes on, and what it has to do about the message.
pub fn apply_client_to_server<W, R, B>(up: ClientToServer<W, R>, server: &mut Server<B>) -> (r: (
    bool,
    Action<W, R>,
))
    ensures
        r.0 == !(up is Quit),
        r.1 == client_action(
            up,
            old(server).player.is_jumping,
            old(server).blocks@,
            old(server).lg_extent,
        ),
        final(server).player.is_jumping == jumping_after(up, old(server).player.is_jumping),
        final(server).blocks == old(server).blocks,
        final(server).lg_extent == old(server).lg_extent,
{
    match up {
        ClientToServer::Init(_) => (true, Action::InformClient),
        ClientToServer::AddPlayer(_) => (true, Action::Nothing),
        ClientToServer::Quit => (false, Action::Quit),
        ClientToServer::StartJump => {
            if !server.player.is_jumping {
                server.player.is_jumping = true;
                (true, Action::StartJump)
            } else {
                (true, Action::Nothing)
            }
        },
        ClientToServer::StopJump => {
            if server.player.is_jumping {
                server.player.is_jumping = false;
                (true, Action::StopJump)
            } else {
                (true, Action::Nothing)
            }
        },
        ClientToServer::Walk(v) => (true, Action::Walk(v)),
        ClientToServer::RotatePlayer(v) => (true, Action::Rotate(v)),
        ClientToServer::RequestBlock(position, lod) => {
            if is_out_of_range(server.lg_extent, position.as_pnt(), lod) {
                (true, Action::OutOfRange(position, lod))
            } else if server.blocks.contains(&position, lod) {
                (true, Action::SendBlock(position, lod))
            } else {
                (true, Action::Generate(ServerToGaia::Load(position, lod, LoadReason::ForClient)))
            }
        },
    }
}

/// What the server's loop has to do once the terrain generator is done
/// with a block: a block for the client is sent to it, any other is handed
/// to the simulation.
pub open spec fn gaia_action<W, R>(up: GaiaToServer) -> Action<W, R> {
    match up {
        GaiaToServer::Loaded(position, lod, LoadReason::Local(owner)) => Action::LoadLocal(
            position,
            lod,
            owner,
        ),
        GaiaToServer::Loaded(position, lod, LoadReason::ForClient) => Action::SendBlock(
            position,
            lod,
        ),
    }
}

/// Whether the block that the terrain generator speaks of is there, as far
/// as the server has to send it on.
pub open spec fn delivered<B>(up: GaiaToServer, blocks: Map<(Point3<i32>, LODIndex), B>) -> bool {
    match up {
        GaiaToServer::Loaded(position, lod, LoadReason::ForClient) => blocks.contains_key(
            (position@, lod),
        ),
        GaiaToServer::Loaded(_, _, LoadReason::Local(_)) => true,
    }
}

/// Applies a message of the terrain generator to the server's state.
/// Returns what the server's loop has to do about it.
///
/// The generator reports a block when it is kept, so the block is there.
pub fn apply_gaia_to_server<W, R, B>(up: GaiaToServer, server: &Server<B>) -> (action: Action<
    W,
    R,
>)
    requires
        delivered(up, server.blocks@),
    ensures
        action == gaia_action::<W, R>(up),
{
    match up {
        GaiaToServer::Loaded(position, lod_index, load_reason) => {
            match load_reason {
                LoadReason::Local(owner) => Action::LoadLocal(position, lod_index, owner),
                LoadReason::ForClient => Action::SendBlock(position, lod_index),
            }
        },
    }
}

} // verus!
