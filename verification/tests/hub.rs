use axochat::auth::{SessionAnswer, UserInfo};
use axochat::error::ClientError;
use axochat::id::InternalId;
use axochat::message::MessageConfig;
use axochat::moderation::Moderation;
use axochat::packet::{ClientPacket, Effect, SuccessReason, User};
use axochat::server::ChatServer;

const ALICE: u128 = 0x11;
const BOB: u128 = 0x22;
const MOD: u128 = 0x99;

fn config() -> MessageConfig {
    MessageConfig { capacity: 10, regen_time_ms: 100, max_length: 64 }
}

fn hub() -> ChatServer {
    ChatServer::new(config(), Moderation::from_lists(&vec![], &vec![MOD]), true)
}

fn send(to: InternalId, packet: ClientPacket) -> Effect {
    Effect::Send { to, packet }
}

fn error(to: InternalId, message: ClientError) -> Effect {
    send(to, ClientPacket::Error { message })
}

fn login(hub: &mut ChatServer, conn: InternalId, name: &str, uuid: u128, allow_messages: bool) {
    let effects = hub.handle_login_jwt(
        conn,
        Some(UserInfo { name: name.to_string(), uuid }),
        allow_messages,
        0,
    );
    assert_eq!(
        effects,
        vec![send(conn, ClientPacket::Success { reason: SuccessReason::Login })]
    );
}

#[test]
fn connection_ids_are_assigned_monotonically() {
    let mut h = hub();
    assert_eq!(h.connect(), InternalId(0));
    assert_eq!(h.connect(), InternalId(1));
    h.disconnect(InternalId(0));
    assert_eq!(h.connect(), InternalId(2));
}

#[test]
fn mojang_handshake_round_trip() {
    let mut h = hub();
    let a = h.connect();
    let _b = h.connect();

    // Phase 1: the challenge is stored and sent back.
    let effects = h.handle_mojang_challenge(a, &[0x42u8; 20]);
    let hash = match effects.as_slice() {
        [Effect::Send { to, packet: ClientPacket::MojangInfo { session_hash } }] => {
            assert_eq!(*to, a);
            session_hash.clone()
        },
        other => panic!("unexpected effects: {other:?}"),
    };
    assert!(hash.starts_with('4'));

    // Phase 2: the nonce is consumed and the external lookup is requested.
    let alice = User { name: "Alice".to_string(), uuid: ALICE, allow_messages: true };
    let effects = h.login_mojang(a, alice.clone());
    assert_eq!(
        effects,
        vec![Effect::VerifyMojang { conn: a, user: alice.clone(), server_id: hash }]
    );

    // Completion with the matching UUID logs the connection in.
    let effects = h.complete_login_mojang(a, alice, SessionAnswer::Verified(ALICE), 0);
    assert_eq!(
        effects,
        vec![send(a, ClientPacket::Success { reason: SuccessReason::Login })]
    );
}

#[test]
fn mojang_mismatched_uuid_is_invalid_id() {
    let mut h = hub();
    let a = h.connect();
    h.handle_mojang_challenge(a, &[0x42u8; 20]);
    let alice = User { name: "Alice".to_string(), uuid: ALICE, allow_messages: true };
    h.login_mojang(a, alice.clone());
    let effects = h.complete_login_mojang(a, alice.clone(), SessionAnswer::Verified(BOB), 0);
    assert_eq!(effects, vec![error(a, ClientError::InvalidId)]);
    // Still unauthenticated, and the nonce was cleared at phase 2.
    assert_eq!(
        h.handle_message(a, "hi".to_string(), 0),
        vec![error(a, ClientError::NotLoggedIn)]
    );
    assert_eq!(
        h.login_mojang(a, alice),
        vec![error(a, ClientError::MojangRequestMissing)]
    );
}

#[test]
fn mojang_transport_failure_is_login_failed() {
    let mut h = hub();
    let a = h.connect();
    h.handle_mojang_challenge(a, &[1u8; 20]);
    let alice = User { name: "Alice".to_string(), uuid: ALICE, allow_messages: true };
    h.login_mojang(a, alice.clone());
    let effects = h.complete_login_mojang(a, alice, SessionAnswer::Failed, 0);
    assert_eq!(effects, vec![error(a, ClientError::LoginFailed)]);
}

#[test]
fn mojang_malformed_answer_is_internal() {
    let mut h = hub();
    let a = h.connect();
    h.handle_mojang_challenge(a, &[1u8; 20]);
    let alice = User { name: "Alice".to_string(), uuid: ALICE, allow_messages: true };
    h.login_mojang(a, alice.clone());
    // A 200 answer whose body or id could not be understood is an
    // infrastructure fault, not a login failure.
    let effects = h.complete_login_mojang(a, alice.clone(), SessionAnswer::Malformed, 0);
    assert_eq!(effects, vec![error(a, ClientError::Internal)]);
    assert_eq!(
        h.handle_message(a, "hi".to_string(), 0),
        vec![error(a, ClientError::NotLoggedIn)]
    );
}

#[test]
fn mojang_completion_after_disconnect_is_noop() {
    let mut h = hub();
    let a = h.connect();
    h.handle_mojang_challenge(a, &[1u8; 20]);
    let alice = User { name: "Alice".to_string(), uuid: ALICE, allow_messages: true };
    h.login_mojang(a, alice.clone());
    h.disconnect(a);
    let effects = h.complete_login_mojang(a, alice, SessionAnswer::Verified(ALICE), 0);
    assert_eq!(effects, vec![]);
}

#[test]
fn clearing_top_bit_of_all_high_byte_yields_zero_hash() {
    let mut h = hub();
    let a = h.connect();
    let mut bytes = [0u8; 20];
    bytes[0] = 0x80;
    let effects = h.handle_mojang_challenge(a, &bytes);
    assert_eq!(
        effects,
        vec![send(a, ClientPacket::MojangInfo { session_hash: "0".to_string() })]
    );
}

#[test]
fn random_challenge_is_stored_and_sent() {
    let mut h = hub();
    let a = h.connect();
    let effects = h.handle_request_mojang_info(a);
    match effects.as_slice() {
        [Effect::Send { to, packet: ClientPacket::MojangInfo { session_hash } }] => {
            assert_eq!(*to, a);
            assert!(!session_hash.is_empty());
            if session_hash.starts_with('0') {
                assert_eq!(session_hash, "0");
            }
        },
        other => panic!("unexpected effects: {other:?}"),
    }
}

#[test]
fn unauthenticated_message_is_not_logged_in() {
    let mut h = hub();
    let a = h.connect();
    let effects = h.handle_message(a, "hi".to_string(), 0);
    assert_eq!(effects, vec![error(a, ClientError::NotLoggedIn)]);
}

#[test]
fn broadcast_reaches_every_authenticated_connection() {
    let mut h = hub();
    let a = h.connect();
    let b = h.connect();
    let c = h.connect();
    login(&mut h, a, "Alice", ALICE, true);
    login(&mut h, b, "Bob", BOB, false);
    // c stays unauthenticated and receives nothing.
    let effects = h.handle_message(a, "hi".to_string(), 0);
    let expected_packet = ClientPacket::Message {
        author_id: a,
        author_name: "Alice".to_string(),
        content: "hi".to_string(),
    };
    assert_eq!(
        effects,
        vec![send(a, expected_packet.clone()), send(b, expected_packet)]
    );
    let _ = c;
}

#[test]
fn private_message_goes_only_to_accepting_connections() {
    let mut h = hub();
    let a = h.connect();
    let b1 = h.connect();
    let b2 = h.connect();
    login(&mut h, a, "Alice", ALICE, true);
    login(&mut h, b1, "Bob", BOB, false);
    login(&mut h, b2, "Bob", BOB, true);
    let effects = h.handle_private_message(a, "Bob".to_string(), "hey".to_string(), 0);
    assert_eq!(
        effects,
        vec![send(
            b2,
            ClientPacket::PrivateMessage {
                author_id: a,
                author_name: "Alice".to_string(),
                content: "hey".to_string(),
            }
        )]
    );
}

#[test]
fn private_message_to_non_accepting_receiver_is_refused() {
    let mut h = hub();
    let a = h.connect();
    let b = h.connect();
    login(&mut h, a, "Alice", ALICE, true);
    login(&mut h, b, "Bob", BOB, false);
    let effects = h.handle_private_message(a, "Bob".to_string(), "hey".to_string(), 0);
    assert_eq!(effects, vec![error(a, ClientError::PrivateMessageNotAccepted)]);
}

#[test]
fn private_message_to_unknown_receiver_is_invalid_id() {
    let mut h = hub();
    let a = h.connect();
    login(&mut h, a, "Alice", ALICE, true);
    let effects = h.handle_private_message(a, "Bob".to_string(), "hey".to_string(), 0);
    assert_eq!(effects, vec![error(a, ClientError::InvalidId)]);
}

#[test]
fn rate_limited_sender_is_denied() {
    let mut h = ChatServer::new(
        MessageConfig { capacity: 2, regen_time_ms: 100, max_length: 64 },
        Moderation::empty(),
        true,
    );
    let a = h.connect();
    login(&mut h, a, "Alice", ALICE, true);
    assert_eq!(h.handle_message(a, "one".to_string(), 0).len(), 1);
    assert_eq!(h.handle_message(a, "two".to_string(), 0).len(), 1);
    assert_eq!(
        h.handle_message(a, "three".to_string(), 0),
        vec![error(a, ClientError::RateLimited)]
    );
    // The limit is shared across connections of the same user.
    let a2 = h.connect();
    login(&mut h, a2, "Alice", ALICE, true);
    assert_eq!(
        h.handle_message(a2, "four".to_string(), 10),
        vec![error(a2, ClientError::RateLimited)]
    );
}

#[test]
fn message_validation_errors_are_reported() {
    let mut h = hub();
    let a = h.connect();
    login(&mut h, a, "Alice", ALICE, true);
    assert_eq!(
        h.handle_message(a, String::new(), 0),
        vec![error(a, ClientError::EmptyMessage)]
    );
    assert_eq!(
        h.handle_message(a, "x".repeat(65), 0),
        vec![error(a, ClientError::MessageTooLong)]
    );
    assert_eq!(
        h.handle_message(a, "a\u{2}b".to_string(), 0),
        vec![error(a, ClientError::InvalidCharacter('\u{2}'))]
    );
}

#[test]
fn user_count_requires_moderator() {
    let mut h = hub();
    let a = h.connect();
    let m = h.connect();
    login(&mut h, a, "Alice", ALICE, true);
    login(&mut h, m, "Mod", MOD, true);
    assert_eq!(h.send_user_count(a), vec![error(a, ClientError::NotPermitted)]);
    assert_eq!(
        h.send_user_count(m),
        vec![send(m, ClientPacket::UserCount { connections: 2, logged_in: 2 })]
    );
    let u = h.connect();
    assert_eq!(h.send_user_count(u), vec![error(u, ClientError::NotLoggedIn)]);
}

#[test]
fn ban_closes_every_connection_of_the_target() {
    let mut h = hub();
    let m = h.connect();
    let b1 = h.connect();
    let b2 = h.connect();
    login(&mut h, m, "Mod", MOD, true);
    login(&mut h, b1, "Bob", BOB, true);
    login(&mut h, b2, "Bob", BOB, true);
    let effects = h.handle_ban_user(m, BOB);
    assert_eq!(
        effects,
        vec![
            Effect::Close { conn: b1 },
            Effect::Close { conn: b2 },
            Effect::PersistModeration,
            send(m, ClientPacket::Success { reason: SuccessReason::Ban }),
        ]
    );
    // Bob's session is gone with his connections.
    assert_eq!(
        h.send_user_count(m),
        vec![send(m, ClientPacket::UserCount { connections: 1, logged_in: 1 })]
    );
    // A later disconnect notice for a closed connection is a no-op.
    h.disconnect(b1);
}

#[test]
fn ban_is_idempotent() {
    let mut h = hub();
    let m = h.connect();
    login(&mut h, m, "Mod", MOD, true);
    let first = h.handle_ban_user(m, BOB);
    let second = h.handle_ban_user(m, BOB);
    assert_eq!(
        first,
        vec![
            Effect::PersistModeration,
            send(m, ClientPacket::Success { reason: SuccessReason::Ban }),
        ]
    );
    assert_eq!(second, first);
    assert_eq!(h.moderation.banned_list().as_slice(), &[BOB]);
}

#[test]
fn unban_restores_the_pre_ban_state() {
    let mut h = hub();
    let m = h.connect();
    login(&mut h, m, "Mod", MOD, true);
    assert_eq!(
        h.handle_unban_user(m, BOB),
        vec![error(m, ClientError::NotBanned)]
    );
    h.handle_ban_user(m, BOB);
    assert_eq!(
        h.handle_unban_user(m, BOB),
        vec![
            Effect::PersistModeration,
            send(m, ClientPacket::Success { reason: SuccessReason::Unban }),
        ]
    );
    assert!(!h.moderation.is_banned(BOB));
}

#[test]
fn moderation_requires_privileges() {
    let mut h = hub();
    let a = h.connect();
    login(&mut h, a, "Alice", ALICE, true);
    assert_eq!(h.handle_ban_user(a, BOB), vec![error(a, ClientError::NotPermitted)]);
    let u = h.connect();
    assert_eq!(h.handle_ban_user(u, BOB), vec![error(u, ClientError::NotLoggedIn)]);
}

#[test]
fn banned_sender_cannot_broadcast() {
    let mut h = hub();
    let m = h.connect();
    let a = h.connect();
    login(&mut h, m, "Mod", MOD, true);
    login(&mut h, a, "Alice", ALICE, true);
    // A ban closes Alice's connections; she logs in again afterwards.
    h.handle_ban_user(m, ALICE);
    let a2 = h.connect();
    login(&mut h, a2, "Alice", ALICE, true);
    assert_eq!(
        h.handle_message(a2, "hi".to_string(), 0),
        vec![error(a2, ClientError::Banned)]
    );
}

#[test]
fn jwt_login_and_token_requests() {
    let mut h = hub();
    let a = h.connect();
    // Verification failure.
    assert_eq!(
        h.handle_login_jwt(a, None, true, 0),
        vec![error(a, ClientError::LoginFailed)]
    );
    login(&mut h, a, "Alice", ALICE, true);
    // Re-login on an authenticated connection is rejected.
    assert_eq!(
        h.handle_login_jwt(a, Some(UserInfo { name: "Alice".to_string(), uuid: ALICE }), true, 0),
        vec![error(a, ClientError::AlreadyLoggedIn)]
    );
    // Token minting is delegated to the surroundings and answered back.
    assert_eq!(
        h.handle_request_jwt(a),
        vec![Effect::MintToken {
            conn: a,
            user: UserInfo { name: "Alice".to_string(), uuid: ALICE },
        }]
    );
    assert_eq!(
        h.token_minted(a, Some("tok".to_string())),
        vec![send(a, ClientPacket::NewJWT { token: "tok".to_string() })]
    );
    assert_eq!(h.token_minted(a, None), vec![error(a, ClientError::Internal)]);
    let u = h.connect();
    assert_eq!(h.handle_request_jwt(u), vec![error(u, ClientError::NotLoggedIn)]);
}

#[test]
fn jwt_requires_configured_token_service() {
    let mut h = ChatServer::new(config(), Moderation::empty(), false);
    let a = h.connect();
    assert_eq!(
        h.handle_login_jwt(a, Some(UserInfo { name: "Alice".to_string(), uuid: ALICE }), true, 0),
        vec![error(a, ClientError::NotSupported)]
    );
    assert_eq!(h.handle_request_jwt(a), vec![error(a, ClientError::NotSupported)]);
}

#[test]
fn disconnect_drops_session_with_last_connection() {
    let mut h = hub();
    let m = h.connect();
    let a1 = h.connect();
    let a2 = h.connect();
    login(&mut h, m, "Mod", MOD, true);
    login(&mut h, a1, "Alice", ALICE, true);
    login(&mut h, a2, "Alice", ALICE, true);
    h.disconnect(a1);
    assert_eq!(
        h.send_user_count(m),
        vec![send(m, ClientPacket::UserCount { connections: 2, logged_in: 2 })]
    );
    h.disconnect(a2);
    assert_eq!(
        h.send_user_count(m),
        vec![send(m, ClientPacket::UserCount { connections: 1, logged_in: 1 })]
    );
}

#[test]
fn double_login_on_one_connection_is_rejected() {
    let mut h = hub();
    let a = h.connect();
    login(&mut h, a, "Alice", ALICE, true);
    let effects = h.handle_mojang_challenge(a, &[1u8; 20]);
    assert_eq!(effects, vec![error(a, ClientError::AlreadyLoggedIn)]);
    let alice = User { name: "Alice".to_string(), uuid: ALICE, allow_messages: true };
    assert_eq!(h.login_mojang(a, alice), vec![error(a, ClientError::AlreadyLoggedIn)]);
}

#[test]
fn mojang_completion_after_other_login_is_noop() {
    let mut h = hub();
    let a = h.connect();
    h.handle_mojang_challenge(a, &[1u8; 20]);
    let alice = User { name: "Alice".to_string(), uuid: ALICE, allow_messages: true };
    h.login_mojang(a, alice.clone());
    // The connection authenticates through a token while the external
    // lookup is still in flight; the late completion must change nothing.
    login(&mut h, a, "Alice", ALICE, true);
    let effects = h.complete_login_mojang(a, alice, SessionAnswer::Verified(ALICE), 0);
    assert_eq!(effects, vec![]);
    assert_eq!(
        h.handle_message(a, "hi".to_string(), 0).len(),
        1,
        "the earlier login must still stand"
    );
}
