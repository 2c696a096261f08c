//! How a client gets connected, and how its loops read their channels.

use crate::entity::EntityId;
use crate::error::Error;
use crate::protocol::{ClientId, ClientToServer, ServerToClient};
use vstd::prelude::*;

verus! {

/// What a look into a channel finds, without waiting.
#[derive(Debug, PartialEq, Eq)]
pub enum Polled<T> {
    /// The next message.
    Message(T),
    /// No message yet.
    Empty,
    /// No message, and nobody left to send one.
    Disconnected,
}

/// The message that a look into a channel found, if any. A channel whose
/// sender is gone is a failure that ends the loop.
pub fn try_recv<T>(polled: Polled<T>) -> (r: Result<Option<T>, Error>)
    ensures
        r == match polled {
            Polled::Message(msg) => Ok::<Option<T>, Error>(Some(msg)),
            Polled::Empty => Ok(None),
            Polled::Disconnected => Err(Error::ChannelClosed),
        },
{
    match polled {
        Polled::Message(msg) => Ok(Some(msg)),
        Polled::Empty => Ok(None),
        Polled::Disconnected => Err(Error::ChannelClosed),
    }
}

/// A connected client: its own id, its player and where the player is.
#[derive(Debug, PartialEq, Eq)]
pub struct Client<P> {
    pub id: ClientId,
    pub player_id: EntityId,
    pub player_position: P,
}

/// How far a client has got in connecting to the server.
#[derive(Debug, PartialEq, Eq, Copy, Clone, Structural)]
pub enum Connecting {
    /// The client has announced itself and waits for its id.
    AwaitingLease,
    /// The client has asked for a player under its id and waits for it.
    AwaitingPlayer(ClientId),
}

/// What a client that is connecting has to do about a message.
#[derive(Debug, PartialEq, Eq)]
pub enum Connected<P, W, R> {
    /// Nothing: the message is not the awaited one. Wait for the next.
    Ignore,
    /// Send this to the server, and wait on.
    Tell(ClientToServer<W, R>),
    /// The client is connected.
    Done(Client<P>),
}

/// What a connecting client in the state `state` does about the message
/// `msg`, and the state it is in afterwards.
///
/// The lease of an id is answered by asking for a player, and the player
/// completes the connection; every message that is not the awaited one is
/// passed over.
pub open spec fn connect_step<P, B, W, R>(state: Connecting, msg: ServerToClient<P, B>) -> (
    Connecting,
    Connected<P, W, R>,
) {
    match (state, msg) {
        (Connecting::AwaitingLease, ServerToClient::LeaseId(client_id)) => (
            Connecting::AwaitingPlayer(client_id),
            Connected::Tell(ClientToServer::AddPlayer(client_id)),
        ),
        (
            Connecting::AwaitingPlayer(client_id),
            ServerToClient::PlayerAdded(player_id, position),
        ) => (
            state,
            Connected::Done(Client { id: client_id, player_id, player_position: position }),
        ),
        _ => (state, Connected::Ignore),
    }
}

/// Takes a connecting client one message further: computes
/// [`connect_step`]. A client starts in `Connecting::AwaitingLease`, once it
/// has sent `ClientToServer::Init`.
pub fn connect_client<P, B, W, R>(state: Connecting, msg: ServerToClient<P, B>) -> (r: (
    Connecting,
    Connected<P, W, R>,
))
    ensures
        r == connect_step::<P, B, W, R>(state, msg),
{
    match state {
        Connecting::AwaitingLease => match msg {
            ServerToClient::LeaseId(client_id) => (
                Connecting::AwaitingPlayer(client_id),
                Connected::Tell(ClientToServer::AddPlayer(client_id)),
            ),
            _ => (state, Connected::Ignore),
        },
        Connecting::AwaitingPlayer(client_id) => match msg {
            ServerToClient::PlayerAdded(player_id, position) => (
                state,
                Connected::Done(Client { id: client_id, player_id, player_position: position }),
            ),
            _ => (state, Connected::Ignore),
        },
    }
}

} // verus!
