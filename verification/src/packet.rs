//! Typed packet schemas and the effects a hub transition asks of its
//! surroundings.

use crate::error::ClientError;
use crate::id::InternalId;
use vstd::prelude::*;

verus! {

/// Authenticated user binding of a connection.
#[derive(Clone, PartialEq, Eq, Debug)]
pub struct User {
    pub name: String,
    pub uuid: u128,
    /// Whether this connection accepts private messages.
    pub allow_messages: bool,
}

#[derive(Clone, Copy, PartialEq, Eq, Debug, Structural)]
pub enum SuccessReason {
    Login,
    Ban,
    Unban,
}

/// Server-bound packets.
#[derive(Clone, PartialEq, Eq, Debug)]
pub enum ServerPacket {
    Message { content: String },
    PrivateMessage { receiver: String, content: String },
    LoginMojang { name: String, uuid: u128, allow_messages: bool },
    RequestMojangInfo,
    LoginJWT { token: String, allow_messages: bool },
    RequestJWT,
    BanUser { uuid: u128 },
    UnbanUser { uuid: u128 },
    RequestUserCount,
}

/// Client-bound packets.
#[derive(Clone, PartialEq, Eq, Debug)]
pub enum ClientPacket {
    Message { author_id: InternalId, author_name: String, content: String },
    PrivateMessage { author_id: InternalId, author_name: String, content: String },
    MojangInfo { session_hash: String },
    NewJWT { token: String },
    UserCount { connections: u32, logged_in: u32 },
    Success { reason: SuccessReason },
    Error { message: ClientError },
}

/// What the hub asks its surroundings to do after handling one event.
#[derive(Clone, PartialEq, Eq, Debug)]
pub enum Effect {
    /// Deliver `packet` on the outbound queue of connection `to`.
    Send { to: InternalId, packet: ClientPacket },
    /// Forcibly close the transport of connection `conn`.
    Close { conn: InternalId },
    /// Issue the asynchronous external session-service lookup for the second
    /// phase of the Mojang handshake, then hand the outcome back through
    /// `ChatServer::complete_login_mojang` for the same connection.
    VerifyMojang { conn: InternalId, user: User, server_id: String },
    /// Mint a signed token for `user` with the token service, then hand the
    /// outcome back through `ChatServer::token_minted` for the same
    /// connection.
    MintToken { conn: InternalId, user: crate::auth::UserInfo },
    /// Rewrite the moderation file from the hub's moderation state.
    PersistModeration,
}

} // verus!
