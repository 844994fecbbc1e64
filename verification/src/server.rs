//! The chat hub: the single authority that owns the connection table, the
//! user-session table and the moderation state, and processes one event at a
//! time. Every handler is a pure transition: it mutates the hub and returns
//! the effects (packets to send, connections to close, outside work to start)
//! that the transport layer must carry out.

use crate::auth::encode_sha1_bytes;
use crate::auth::trimmed_hex;
use crate::error::ClientError;
use crate::id::InternalId;
use crate::message::validate_spec;
use crate::message::validate_message;
use crate::message::MessageConfig;
use crate::message::RateLimiter;
use crate::moderation::Moderation;
use crate::packet::ClientPacket;
use crate::packet::Effect;
use crate::packet::SuccessReason;
use crate::packet::User;
use vstd::prelude::*;

verus! {

/// One live connection: its identifier, the pending challenge nonce of an
/// unfinished Mojang handshake, and the authenticated user binding.
#[derive(Clone, Debug)]
pub struct Connection {
    pub id: u64,
    pub session_hash: Option<String>,
    pub user: Option<User>,
}

/// Per-identity bookkeeping, keyed by user name: the rate limiter shared by
/// every connection authenticated as that name. The connection set of the
/// session is derived from the connection table; see
/// [`ChatServer::session_connections`].
#[derive(Clone, Debug)]
pub struct UserSession {
    pub name: String,
    pub rate_limiter: RateLimiter,
}

/// The hub state.
pub struct ChatServer {
    pub connections: Vec<Connection>,
    pub users: Vec<UserSession>,
    pub moderation: Moderation,
    pub config: MessageConfig,
    /// Whether a token service is configured.
    pub auth_configured: bool,
    /// The next connection identifier to hand out.
    pub next_id: u64,
}

/// Whether `c` is authenticated under the user name `name`.
pub open spec fn conn_authed_as(c: Connection, name: Seq<char>) -> bool {
    c.user is Some && c.user->0.name@ == name
}

/// Whether `c` is authenticated under the account UUID `uuid`.
pub open spec fn conn_has_uuid(c: Connection, uuid: u128) -> bool {
    c.user is Some && c.user->0.uuid == uuid
}

impl ChatServer {
    pub open spec fn has_conn(self, id: u64) -> bool {
        exists|i: int| 0 <= i < self.connections@.len() && self.connections@[i].id == id
    }

    pub open spec fn conn_idx(self, id: u64) -> int {
        choose|i: int| 0 <= i < self.connections@.len() && self.connections@[i].id == id
    }

    /// The connection record with identifier `id`; meaningful only when
    /// `has_conn(id)`.
    pub open spec fn conn_at(self, id: u64) -> Connection {
        self.connections@[self.conn_idx(id)]
    }

    /// Whether some connection is authenticated under `name`.
    pub open spec fn some_conn_named(self, name: Seq<char>) -> bool {
        exists|i: int|
            0 <= i < self.connections@.len() && conn_authed_as(self.connections@[i], name)
    }

    /// Whether a user session exists for `name`.
    pub open spec fn has_session(self, name: Seq<char>) -> bool {
        exists|u: int| 0 <= u < self.users@.len() && self.users@[u].name@ == name
    }

    pub open spec fn user_idx(self, name: Seq<char>) -> int {
        choose|u: int| 0 <= u < self.users@.len() && self.users@[u].name@ == name
    }

    /// The session for `name`; meaningful only when `has_session(name)`.
    pub open spec fn session_at(self, name: Seq<char>) -> UserSession {
        self.users@[self.user_idx(name)]
    }

    /// The set of connection identifiers currently authenticated as `name`:
    /// the connection set of the user session.
    pub open spec fn session_connections(self, name: Seq<char>) -> Set<u64> {
        Set::new(
            |id: u64|
                exists|i: int|
                    0 <= i < self.connections@.len() && self.connections@[i].id == id
                        && conn_authed_as(self.connections@[i], name),
        )
    }

    /// All parts of the hub invariant except that every session still has a
    /// connection; removal handlers restore that last part by pruning.
    pub open spec fn wf_core(self) -> bool {
        &&& forall|i: int, j: int|
            0 <= i < j < self.connections@.len() ==> self.connections@[i].id
                != self.connections@[j].id
        &&& forall|i: int|
            0 <= i < self.connections@.len() ==> #[trigger] self.connections@[i].id < self.next_id
        &&& forall|i: int|
            0 <= i < self.connections@.len() && #[trigger] self.connections@[i].user is Some
                ==> self.connections@[i].session_hash is None
        &&& forall|u: int, v: int|
            0 <= u < v < self.users@.len() ==> self.users@[u].name@ != self.users@[v].name@
        &&& forall|i: int|
            0 <= i < self.connections@.len() && #[trigger] self.connections@[i].user is Some
                ==> self.has_session(self.connections@[i].user->0.name@)
        &&& forall|u: int|
            0 <= u < self.users@.len() ==> (#[trigger] self.users@[u].rate_limiter).wf()
                && self.users@[u].rate_limiter.config == self.config
        &&& self.moderation.wf()
    }

    /// The hub invariant, preserved by every handler:
    /// - connection identifiers are unique and below `next_id`;
    /// - no connection is both challenged (pending nonce) and authenticated;
    /// - user names in the session table are unique;
    /// - a session exists exactly for the names with at least one
    ///   authenticated connection;
    /// - every rate limiter is well-formed and carries the hub's policy.
    pub open spec fn wf(self) -> bool {
        &&& self.wf_core()
        &&& forall|u: int|
            0 <= u < self.users@.len() ==> self.some_conn_named(
                #[trigger] self.users@[u].name@,
            )
    }

    /// A fresh hub: no connections, no sessions, the given policy and
    /// moderation state.
    pub fn new(config: MessageConfig, moderation: Moderation, auth_configured: bool) -> (r:
        ChatServer)
        requires
            moderation.wf(),
        ensures
            r.wf(),
            r.connections@ == Seq::<Connection>::empty(),
            r.users@ == Seq::<UserSession>::empty(),
            r.moderation == moderation,
            r.config == config,
            r.auth_configured == auth_configured,
            r.next_id == 0,
    {
        ChatServer {
            connections: Vec::new(),
            users: Vec::new(),
            moderation,
            config,
            auth_configured,
            next_id: 0,
        }
    }

    /// Every authenticated connection is a member of its own user session's
    /// connection set, and that session exists.
    pub proof fn lemma_authenticated_in_session(self, i: int)
        requires
            self.wf(),
            0 <= i < self.connections@.len(),
            self.connections@[i].user is Some,
        ensures
            self.has_session(self.connections@[i].user->0.name@),
            self.session_connections(self.connections@[i].user->0.name@).contains(
                self.connections@[i].id,
            ),
    {
    }

    /// A user session exists exactly when its connection set is non-empty.
    pub proof fn lemma_session_iff_nonempty(self, name: Seq<char>)
        requires
            self.wf(),
        ensures
            self.has_session(name) <==> self.session_connections(name)
                != Set::<u64>::empty(),
    {
        if self.has_session(name) {
            let u = choose|u: int| 0 <= u < self.users@.len() && self.users@[u].name@ == name;
            assert(self.some_conn_named(name));
            let i = choose|i: int|
                0 <= i < self.connections@.len() && conn_authed_as(self.connections@[i], name);
            assert(self.session_connections(name).contains(self.connections@[i].id));
        }
        if self.session_connections(name) != Set::<u64>::empty() {
            assert(!(self.session_connections(name) =~= Set::<u64>::empty()));
            let id = choose|id: u64| self.session_connections(name).contains(id);
            let i = choose|i: int|
                0 <= i < self.connections@.len() && self.connections@[i].id == id
                    && conn_authed_as(self.connections@[i], name);
            assert(self.connections@[i].user is Some);
        }
    }

    /// A connection is never both challenged and authenticated.
    pub proof fn lemma_not_challenged_and_authenticated(self, i: int)
        requires
            self.wf(),
            0 <= i < self.connections@.len(),
        ensures
            !(self.connections@[i].session_hash is Some && self.connections@[i].user is Some),
    {
    }

    /// The index of the connection with identifier `id`, if it is live.
    fn find_conn(&self, id: u64) -> (r: Option<usize>)
        ensures
            match r {
                Some(i) => i < self.connections@.len() && self.connections@[i as int].id == id,
                None => !self.has_conn(id),
            },
    {
        let n = self.connections.len();
        let mut i: usize = 0;
        while i < n
            invariant
                i <= n,
                n == self.connections@.len(),
                forall|k: int| 0 <= k < i ==> self.connections@[k].id != id,
            decreases n - i,
        {
            if self.connections[i].id == id {
                return Some(i);
            }
            i = i + 1;
        }
        None
    }

    /// The index of the session for `name`, if one exists.
    fn find_user(&self, name: &String) -> (r: Option<usize>)
        ensures
            match r {
                Some(u) => u < self.users@.len() && self.users@[u as int].name@ == name@,
                None => !self.has_session(name@),
            },
    {
        let n = self.users.len();
        let mut u: usize = 0;
        while u < n
            invariant
                u <= n,
                n == self.users@.len(),
                forall|k: int| 0 <= k < u ==> self.users@[k].name@ != name@,
            decreases n - u,
        {
            if self.users[u].name.eq(name) {
                return Some(u);
            }
            u = u + 1;
        }
        None
    }

    /// Whether some connection is authenticated under `name`.
    fn any_conn_named(&self, name: &String) -> (r: bool)
        ensures
            r == self.some_conn_named(name@),
    {
        let n = self.connections.len();
        let mut i: usize = 0;
        while i < n
            invariant
                i <= n,
                n == self.connections@.len(),
                forall|k: int| 0 <= k < i ==> !conn_authed_as(self.connections@[k], name@),
            decreases n - i,
        {
            match &self.connections[i].user {
                Some(user) => {
                    if user.name.eq(name) {
                        return true;
                    }
                },
                None => {},
            }
            i = i + 1;
        }
        false
    }

    /// Accept: assign the next identifier and register a fresh connection
    /// with no nonce and no user.
    pub fn connect(&mut self) -> (id: InternalId)
        requires
            old(self).wf(),
            old(self).next_id < u64::MAX,
        ensures
            final(self).wf(),
            id.0 == old(self).next_id,
            final(self).next_id == old(self).next_id + 1,
            final(self).connections@ == old(self).connections@.push(
                Connection { id: id.0, session_hash: None, user: None },
            ),
            final(self).users == old(self).users,
            final(self).moderation == old(self).moderation,
            final(self).config == old(self).config,
            final(self).auth_configured == old(self).auth_configured,
    {
        let id = self.next_id;
        self.next_id = self.next_id + 1;
        self.connections.push(Connection { id, session_hash: None, user: None });
        proof {
            let post = *self;
            let pre = *old(self);
            assert forall|u: int|
                0 <= u < post.users@.len() implies post.some_conn_named(
                #[trigger] post.users@[u].name@,
            ) by {
                let name = post.users@[u].name@;
                let i = choose|i: int|
                    0 <= i < pre.connections@.len() && conn_authed_as(pre.connections@[i], name);
                assert(conn_authed_as(post.connections@[i], name));
            }
            assert forall|i: int|
                0 <= i < post.connections@.len() && #[trigger] post.connections@[i].user
                    is Some implies post.has_session(post.connections@[i].user->0.name@) by {
                assert(i < pre.connections@.len());
            }
        }
        InternalId::new(id)
    }

    /// Drop every user session that has no authenticated connection left.
    fn prune_sessions(&mut self)
        requires
            old(self).wf_core(),
        ensures
            final(self).wf(),
            final(self).connections == old(self).connections,
            final(self).moderation == old(self).moderation,
            final(self).config == old(self).config,
            final(self).auth_configured == old(self).auth_configured,
            final(self).next_id == old(self).next_id,
            final(self).users@ == old(self).users@.filter(
                session_live(old(self).connections@),
            ),
            forall|name: Seq<char>|
                #![auto]
                final(self).has_session(name) <==> old(self).has_session(name)
                    && old(self).some_conn_named(name),
    {
        let ghost orig = old(self).users@;
        let ghost conns = old(self).connections@;
        let ghost pred = session_live(conns);
        let n = self.users.len();
        let mut kept: Vec<UserSession> = Vec::new();
        let mut i: usize = 0;
        proof {
            reveal(Seq::filter);
            assert(orig.take(0) =~= Seq::<UserSession>::empty());
        }
        while i < n
            invariant
                i <= n,
                n == orig.len(),
                pred == session_live(conns),
                self.connections == old(self).connections,
                conns == self.connections@,
                self.moderation == old(self).moderation,
                self.config == old(self).config,
                self.auth_configured == old(self).auth_configured,
                self.next_id == old(self).next_id,
                self.users@ == orig.skip(i as int),
                kept@ == orig.take(i as int).filter(pred),
            decreases n - i,
        {
            let u = self.users.remove(0);
            proof {
                assert(orig.skip(i as int)[0] == orig[i as int]);
                assert(orig.skip(i as int).remove(0) =~= orig.skip(i + 1));
                reveal(Seq::filter);
                assert(orig.take(i + 1).drop_last() =~= orig.take(i as int));
                assert(orig.take(i + 1).last() == orig[i as int]);
            }
            let live = self.any_conn_named(&u.name);
            proof {
                assert(pred(u) == (exists|k: int|
                    0 <= k < conns.len() && conn_authed_as(conns[k], u.name@)));
            }
            if live {
                kept.push(u);
            }
            proof {
                reveal(Seq::filter);
                assert(u == orig[i as int]);
                assert(pred(u) == (exists|k: int|
                    0 <= k < conns.len() && conn_authed_as(conns[k], u.name@)));
                if live {
                    let k = choose|k: int|
                        0 <= k < self.connections@.len() && conn_authed_as(
                            self.connections@[k],
                            u.name@,
                        );
                    assert(conn_authed_as(conns[k], u.name@));
                } else {
                    if pred(u) {
                        let k = choose|k: int|
                            0 <= k < conns.len() && conn_authed_as(conns[k], u.name@);
                        assert(conn_authed_as(self.connections@[k], u.name@));
                        assert(false);
                    }
                }
                assert(live == pred(u));
                assert(orig.take(i + 1).filter(pred) == if pred(orig[i as int]) {
                    orig.take(i as int).filter(pred).push(orig[i as int])
                } else {
                    orig.take(i as int).filter(pred)
                });
                assert(kept@ == orig.take(i + 1).filter(pred));
            }
            i = i + 1;
        }
        proof {
            assert(orig.take(n as int) =~= orig);
        }
        self.users = kept;
        proof {
            lemma_filter_distinct_keys(orig, pred, |u: UserSession| u.name@);
            let post = *self;
            assert forall|u: int, v: int|
                0 <= u < v < post.users@.len() implies post.users@[u].name@
                != post.users@[v].name@ by {}
            assert forall|u: int|
                0 <= u < post.users@.len() implies post.some_conn_named(
                #[trigger] post.users@[u].name@,
            ) by {
                Seq::lemma_filter_pred(orig, pred, u);
                assert(pred(post.users@[u]));
            }
            assert forall|u: int|
                0 <= u < post.users@.len() implies (
            #[trigger] post.users@[u].rate_limiter).wf()
                && post.users@[u].rate_limiter.config == post.config by {
                assert(orig.contains(post.users@[u]));
                let p = choose|p: int| 0 <= p < orig.len() && orig[p] == post.users@[u];
                assert(old(self).users@[p].rate_limiter.wf());
            }
            assert forall|i2: int|
                0 <= i2 < post.connections@.len() && #[trigger] post.connections@[i2].user
                    is Some implies post.has_session(post.connections@[i2].user->0.name@) by {
                let name = post.connections@[i2].user->0.name@;
                assert(old(self).has_session(name));
                let v = choose|v: int| 0 <= v < orig.len() && orig[v].name@ == name;
                assert(conn_authed_as(conns[i2], name));
                assert(pred(orig[v]));
                Seq::lemma_filter_contains(orig, pred, v);
                let k = choose|k: int|
                    0 <= k < post.users@.len() && post.users@[k] == orig[v];
                assert(post.users@[k].name@ == name);
            }
            assert forall|name: Seq<char>| #![auto]
                post.has_session(name) <==> (old(self).has_session(name)
                    && old(self).some_conn_named(name)) by {
                if post.has_session(name) {
                    let u = choose|u: int|
                        0 <= u < post.users@.len() && post.users@[u].name@ == name;
                    assert(orig.contains(post.users@[u]));
                    let p = choose|p: int| 0 <= p < orig.len() && orig[p] == post.users@[u];
                    Seq::lemma_filter_pred(orig, pred, u);
                    assert(pred(post.users@[u]));
                    let k = choose|k: int|
                        0 <= k < conns.len() && conn_authed_as(conns[k], post.users@[u].name@);
                    assert(conn_authed_as(old(self).connections@[k], name));
                }
                if old(self).has_session(name) && old(self).some_conn_named(name) {
                    let v = choose|v: int| 0 <= v < orig.len() && orig[v].name@ == name;
                    let k = choose|k: int|
                        0 <= k < conns.len() && conn_authed_as(conns[k], name);
                    assert(pred(orig[v]));
                    Seq::lemma_filter_contains(orig, pred, v);
                    let u = choose|u: int|
                        0 <= u < post.users@.len() && post.users@[u] == orig[v];
                    assert(post.users@[u].name@ == name);
                }
            }
        }
    }

    /// Close: remove the connection record; the session it was authenticated
    /// under is dropped when this was its last connection. A disconnect for an
    /// unknown identifier (for instance one that a ban already removed) is a
    /// no-op.
    pub fn disconnect(&mut self, id: InternalId)
        requires
            old(self).wf(),
        ensures
            final(self).wf(),
            final(self).moderation == old(self).moderation,
            final(self).config == old(self).config,
            final(self).auth_configured == old(self).auth_configured,
            final(self).next_id == old(self).next_id,
            !final(self).has_conn(id.0),
            old(self).has_conn(id.0) ==> final(self).connections@
                == old(self).connections@.remove(old(self).conn_idx(id.0)),
            !old(self).has_conn(id.0) ==> final(self).connections@ == old(self).connections@
                && final(self).users@ == old(self).users@,
            forall|name: Seq<char>|
                #![auto]
                final(self).has_session(name) <==> old(self).has_session(name)
                    && final(self).some_conn_named(name),
            forall|u: int|
                0 <= u < final(self).users@.len() ==> old(self).users@.contains(
                    #[trigger] final(self).users@[u],
                ),
    {
        match self.find_conn(id.0) {
            None => {
                proof {
                    let pre = *old(self);
                    assert forall|name: Seq<char>| #![auto]
                        pre.has_session(name) implies pre.some_conn_named(name) by {
                        let u = choose|u: int|
                            0 <= u < pre.users@.len() && pre.users@[u].name@ == name;
                    }
                    assert forall|u: int|
                        0 <= u < pre.users@.len() implies pre.users@.contains(
                        #[trigger] pre.users@[u],
                    ) by {}
                }
            },
            Some(i) => {
                let ghost pre = *old(self);
                self.connections.remove(i);
                proof {
                    assert(pre.connections@[i as int].id == id.0);
                    let j = pre.conn_idx(id.0);
                    assert(pre.connections@[j].id == id.0);
                    assert(i as int == j);
                    let mid = *self;
                    assert forall|p: int, q: int|
                        0 <= p < q < mid.connections@.len() implies mid.connections@[p].id
                        != mid.connections@[q].id by {
                        assert(mid.connections@[p] == if p < i as int {
                            pre.connections@[p]
                        } else {
                            pre.connections@[p + 1]
                        });
                    }
                    assert forall|k: int|
                        0 <= k < mid.connections@.len() && #[trigger] mid.connections@[k].user
                            is Some implies mid.has_session(mid.connections@[k].user->0.name@) by {
                        assert(mid.connections@[k] == if k < i as int {
                            pre.connections@[k]
                        } else {
                            pre.connections@[k + 1]
                        });
                        assert(mid.users@ == pre.users@);
                    }
                    assert forall|k: int|
                        0 <= k < mid.connections@.len() implies (#[trigger] mid.connections@[k].id)
                        < mid.next_id && (mid.connections@[k].user is Some
                        ==> mid.connections@[k].session_hash is None) by {
                        assert(mid.connections@[k] == if k < i as int {
                            pre.connections@[k]
                        } else {
                            pre.connections@[k + 1]
                        });
                    }
                }
                self.prune_sessions();
                proof {
                    assert forall|k: int|
                        0 <= k < final(self).connections@.len() implies (#[trigger] final(self).connections@[k]).id != id.0 by {
                        assert(final(self).connections@[k] == if k < i as int {
                            pre.connections@[k]
                        } else {
                            pre.connections@[k + 1]
                        });
                    }
                    assert forall|u: int|
                        0 <= u < final(self).users@.len() implies pre.users@.contains(
                        #[trigger] final(self).users@[u],
                    ) by {
                        lemma_filter_distinct_keys(
                            pre.users@,
                            session_live(final(self).connections@),
                            |u: UserSession| u.name@,
                        );
                    }
                }
            },
        }
    }
    /// The first half of the Mojang handshake, on given challenge bytes: the
    /// top bit of the first byte is cleared, the bytes are hex-encoded with
    /// leading zero nibbles trimmed, and the result is stored as the
    /// connection's pending nonce and sent back. A connection that is already
    /// authenticated is refused, which keeps a connection from being both
    /// challenged and authenticated.
    pub fn handle_mojang_challenge(&mut self, user_id: InternalId, bytes: &[u8; 20]) -> (effects:
        Vec<Effect>)
        requires
            old(self).wf(),
        ensures
            final(self).wf(),
            mojang_challenge_transition(*old(self), *final(self), effects@, user_id, bytes@),
    {
        let i = match self.find_conn(user_id.0) {
            None => {
                return Vec::new();
            },
            Some(i) => i,
        };
        proof {
            lemma_conn_idx_of(*self, i as int);
        }
        if self.connections[i].user.is_some() {
            return error_reply_exec(user_id, ClientError::AlreadyLoggedIn);
        }
        let mut cleared = *bytes;
        cleared[0] = cleared[0] & 0x7f;
        proof {
            assert(cleared@ =~= cleared_bytes(bytes@));
        }
        let hash = encode_sha1_bytes(&cleared);
        let hash_copy = hash.clone();
        self.connections[i].session_hash = Some(hash);
        let mut effects: Vec<Effect> = Vec::new();
        effects.push(
            Effect::Send {
                to: user_id,
                packet: ClientPacket::MojangInfo { session_hash: hash_copy },
            },
        );
        proof {
            let pre = *old(self);
            let post = *self;
            assert(post.connections@ == pre.connections@.update(
                i as int,
                (Connection { session_hash: post.connections@[i as int].session_hash, ..pre.connections@[i as int] }),
            ));
            lemma_wf_after_nonce_update(pre, post, i as int);
            assert(effects@ =~= seq![
                Effect::Send {
                    to: user_id,
                    packet: ClientPacket::MojangInfo {
                        session_hash: post.connections@[pre.conn_idx(user_id.0)].session_hash->0,
                    },
                },
            ]);
        }
        effects
    }

    /// The first half of the Mojang handshake: issue a fresh 20-byte random
    /// challenge. What is stored and sent is the encoding of some 20 random
    /// bytes; everything else is as in `handle_mojang_challenge`.
    pub fn handle_request_mojang_info(&mut self, user_id: InternalId) -> (effects: Vec<Effect>)
        requires
            old(self).wf(),
        ensures
            final(self).wf(),
            exists|b: Seq<u8>|
                b.len() == 20 && mojang_challenge_transition(
                    *old(self),
                    *final(self),
                    effects@,
                    user_id,
                    b,
                ),
    {
        let bytes = random_bytes20();
        let effects = self.handle_mojang_challenge(user_id, &bytes);
        proof {
            assert(bytes@.len() == 20);
        }
        effects
    }

    /// The second half of the Mojang handshake, phase one: consume the
    /// pending nonce and ask for the external session-service lookup. The
    /// nonce is cleared here, whatever the outcome of the lookup will be.
    pub fn login_mojang(&mut self, user_id: InternalId, info: User) -> (effects: Vec<Effect>)
        requires
            old(self).wf(),
        ensures
            final(self).wf(),
            final(self).users == old(self).users,
            final(self).moderation == old(self).moderation,
            final(self).config == old(self).config,
            final(self).auth_configured == old(self).auth_configured,
            final(self).next_id == old(self).next_id,
            !old(self).has_conn(user_id.0) ==> *final(self) == *old(self) && effects@
                == Seq::<Effect>::empty(),
            old(self).has_conn(user_id.0) ==> ({
                let c = old(self).conn_at(user_id.0);
                if c.user is Some {
                    *final(self) == *old(self) && effects@ == error_reply(
                        user_id,
                        ClientError::AlreadyLoggedIn,
                    )
                } else if c.session_hash is None {
                    *final(self) == *old(self) && effects@ == error_reply(
                        user_id,
                        ClientError::MojangRequestMissing,
                    )
                } else {
                    &&& final(self).connections@ == old(self).connections@.update(
                        old(self).conn_idx(user_id.0),
                        (Connection { session_hash: None, ..c }),
                    )
                    &&& effects@ == seq![
                        Effect::VerifyMojang {
                            conn: user_id,
                            user: info,
                            server_id: c.session_hash->0,
                        },
                    ]
                }
            }),
    {
        let i = match self.find_conn(user_id.0) {
            None => {
                return Vec::new();
            },
            Some(i) => i,
        };
        proof {
            lemma_conn_idx_of(*self, i as int);
        }
        if self.connections[i].user.is_some() {
            return error_reply_exec(user_id, ClientError::AlreadyLoggedIn);
        }
        let hash = match &self.connections[i].session_hash {
            None => {
                return error_reply_exec(user_id, ClientError::MojangRequestMissing);
            },
            Some(h) => h.clone(),
        };
        self.connections[i].session_hash = None;
        let mut effects: Vec<Effect> = Vec::new();
        effects.push(Effect::VerifyMojang { conn: user_id, user: info, server_id: hash });
        proof {
            let pre = *old(self);
            let post = *self;
            assert(post.connections@ == pre.connections@.update(
                i as int,
                (Connection { session_hash: None, ..pre.connections@[i as int] }),
            ));
            lemma_wf_after_nonce_update(pre, post, i as int);
            assert(effects@ =~= seq![
                Effect::VerifyMojang {
                    conn: user_id,
                    user: info,
                    server_id: pre.conn_at(user_id.0).session_hash->0,
                },
            ]);
        }
        effects
    }

    /// The second half of the Mojang handshake, completion: the external
    /// lookup came back as `answer`. The connection is looked up afresh:
    /// completion is a no-op if it is gone or meanwhile authenticated. A
    /// service or transport failure is answered as `LoginFailed`; an answer
    /// the service gave that could not be understood is an infrastructure
    /// fault and is answered as `Internal`; on a UUID match the login
    /// completes, and on a mismatch the client gets `InvalidId`.
    pub fn complete_login_mojang(
        &mut self,
        user_id: InternalId,
        info: User,
        answer: crate::auth::SessionAnswer,
        now_ms: u64,
    ) -> (effects: Vec<Effect>)
        requires
            old(self).wf(),
        ensures
            final(self).wf(),
            final(self).moderation == old(self).moderation,
            final(self).config == old(self).config,
            final(self).auth_configured == old(self).auth_configured,
            final(self).next_id == old(self).next_id,
            (!old(self).has_conn(user_id.0) || old(self).conn_at(user_id.0).user is Some)
                ==> *final(self) == *old(self) && effects@ == Seq::<Effect>::empty(),
            old(self).has_conn(user_id.0) && old(self).conn_at(user_id.0).user is None ==> ({
                match answer {
                    crate::auth::SessionAnswer::Failed => *final(self) == *old(self) && effects@
                        == error_reply(user_id, ClientError::LoginFailed),
                    crate::auth::SessionAnswer::Malformed => *final(self) == *old(self)
                        && effects@ == error_reply(user_id, ClientError::Internal),
                    crate::auth::SessionAnswer::Verified(v) => {
                        if v != info.uuid {
                            *final(self) == *old(self) && effects@ == error_reply(
                                user_id,
                                ClientError::InvalidId,
                            )
                        } else {
                            login_transition(
                                *old(self),
                                *final(self),
                                effects@,
                                user_id,
                                info,
                                now_ms,
                            )
                        }
                    },
                }
            }),
    {
        let i = match self.find_conn(user_id.0) {
            None => {
                return Vec::new();
            },
            Some(i) => i,
        };
        proof {
            lemma_conn_idx_of(*self, i as int);
        }
        if self.connections[i].user.is_some() {
            return Vec::new();
        }
        match answer {
            crate::auth::SessionAnswer::Failed => {
                return error_reply_exec(user_id, ClientError::LoginFailed);
            },
            crate::auth::SessionAnswer::Malformed => {
                return error_reply_exec(user_id, ClientError::Internal);
            },
            crate::auth::SessionAnswer::Verified(v) => {
                if v != info.uuid {
                    return error_reply_exec(user_id, ClientError::InvalidId);
                }
            },
        }
        self.complete_login(i, info, now_ms)
    }

    /// Token login: the surroundings have already run the configured token
    /// service over the presented token; `verified` is the identity it
    /// certified, or `None` on any verification failure. With no token
    /// service configured the request is `NotSupported`; a connection that is
    /// already authenticated is refused.
    pub fn handle_login_jwt(
        &mut self,
        user_id: InternalId,
        verified: Option<crate::auth::UserInfo>,
        allow_messages: bool,
        now_ms: u64,
    ) -> (effects: Vec<Effect>)
        requires
            old(self).wf(),
        ensures
            final(self).wf(),
            final(self).moderation == old(self).moderation,
            final(self).config == old(self).config,
            final(self).auth_configured == old(self).auth_configured,
            final(self).next_id == old(self).next_id,
            !old(self).has_conn(user_id.0) ==> *final(self) == *old(self) && effects@
                == Seq::<Effect>::empty(),
            old(self).has_conn(user_id.0) ==> ({
                if !old(self).auth_configured {
                    *final(self) == *old(self) && effects@ == error_reply(
                        user_id,
                        ClientError::NotSupported,
                    )
                } else if old(self).conn_at(user_id.0).user is Some {
                    *final(self) == *old(self) && effects@ == error_reply(
                        user_id,
                        ClientError::AlreadyLoggedIn,
                    )
                } else if verified is None {
                    *final(self) == *old(self) && effects@ == error_reply(
                        user_id,
                        ClientError::LoginFailed,
                    )
                } else {
                    login_transition(
                        *old(self),
                        *final(self),
                        effects@,
                        user_id,
                        (User {
                            name: verified->0.name,
                            uuid: verified->0.uuid,
                            allow_messages: allow_messages,
                        }),
                        now_ms,
                    )
                }
            }),
    {
        let i = match self.find_conn(user_id.0) {
            None => {
                return Vec::new();
            },
            Some(i) => i,
        };
        proof {
            lemma_conn_idx_of(*self, i as int);
        }
        if !self.auth_configured {
            return error_reply_exec(user_id, ClientError::NotSupported);
        }
        if self.connections[i].user.is_some() {
            return error_reply_exec(user_id, ClientError::AlreadyLoggedIn);
        }
        match verified {
            None => error_reply_exec(user_id, ClientError::LoginFailed),
            Some(ui) => {
                let user = User { name: ui.name, uuid: ui.uuid, allow_messages };
                self.complete_login(i, user, now_ms)
            },
        }
    }

    /// Shared login completion: bind the user to the connection, clearing any
    /// pending nonce, and create the user session with a fresh rate limiter
    /// if this is the user's first connection.
    fn complete_login(&mut self, i: usize, info: User, now_ms: u64) -> (effects: Vec<Effect>)
        requires
            old(self).wf(),
            i < old(self).connections@.len(),
            old(self).connections@[i as int].user is None,
        ensures
            final(self).wf(),
            final(self).moderation == old(self).moderation,
            final(self).config == old(self).config,
            final(self).auth_configured == old(self).auth_configured,
            final(self).next_id == old(self).next_id,
            login_transition(
                *old(self),
                *final(self),
                effects@,
                InternalId(old(self).connections@[i as int].id),
                info,
                now_ms,
            ),
    {
        proof {
            lemma_conn_idx_of(*self, i as int);
        }
        let name_copy = info.name.clone();
        match self.find_user(&info.name) {
            Some(_) => {},
            None => {
                let limiter = RateLimiter::new(self.config, now_ms);
                self.users.push(UserSession { name: name_copy, rate_limiter: limiter });
            },
        }
        let id = self.connections[i].id;
        self.connections[i] = Connection { id, session_hash: None, user: Some(info) };
        let effects = success_reply_exec(InternalId(id), SuccessReason::Login);
        proof {
            let pre = *old(self);
            let post = *self;
            assert(post.connections@ == pre.connections@.update(
                i as int,
                (Connection {
                    id: pre.connections@[i as int].id,
                    session_hash: None,
                    user: Some(info),
                }),
            ));
            lemma_wf_after_login(pre, post, i as int, info, now_ms);
        }
        effects
    }

    /// Mint a token for the authenticated caller: the hub only decides; the
    /// surroundings run the token service and answer through `token_minted`.
    pub fn handle_request_jwt(&self, user_id: InternalId) -> (effects: Vec<Effect>)
        requires
            self.wf(),
        ensures
            !self.has_conn(user_id.0) ==> effects@ == Seq::<Effect>::empty(),
            self.has_conn(user_id.0) ==> ({
                if !self.auth_configured {
                    effects@ == error_reply(user_id, ClientError::NotSupported)
                } else if self.conn_at(user_id.0).user is None {
                    effects@ == error_reply(user_id, ClientError::NotLoggedIn)
                } else {
                    effects@ == seq![
                        Effect::MintToken {
                            conn: user_id,
                            user: (crate::auth::UserInfo {
                                name: self.conn_at(user_id.0).user->0.name,
                                uuid: self.conn_at(user_id.0).user->0.uuid,
                            }),
                        },
                    ]
                }
            }),
    {
        let i = match self.find_conn(user_id.0) {
            None => {
                return Vec::new();
            },
            Some(i) => i,
        };
        proof {
            lemma_conn_idx_of(*self, i as int);
        }
        if !self.auth_configured {
            return error_reply_exec(user_id, ClientError::NotSupported);
        }
        match &self.connections[i].user {
            None => error_reply_exec(user_id, ClientError::NotLoggedIn),
            Some(user) => {
                let mut effects: Vec<Effect> = Vec::new();
                effects.push(
                    Effect::MintToken {
                        conn: user_id,
                        user: crate::auth::UserInfo { name: user.name.clone(), uuid: user.uuid },
                    },
                );
                proof {
                    assert(effects@ =~= seq![
                        Effect::MintToken {
                            conn: user_id,
                            user: (crate::auth::UserInfo {
                                name: self.conn_at(user_id.0).user->0.name,
                                uuid: self.conn_at(user_id.0).user->0.uuid,
                            }),
                        },
                    ]);
                }
                effects
            },
        }
    }

    /// Deliver the outcome of minting a token: the fresh token, or `Internal`
    /// when the token service failed.
    pub fn token_minted(&self, user_id: InternalId, token: Option<String>) -> (effects: Vec<
        Effect,
    >)
        ensures
            !self.has_conn(user_id.0) ==> effects@ == Seq::<Effect>::empty(),
            self.has_conn(user_id.0) ==> match token {
                Some(t) => effects@ == seq![
                    Effect::Send { to: user_id, packet: ClientPacket::NewJWT { token: t } },
                ],
                None => effects@ == error_reply(user_id, ClientError::Internal),
            },
    {
        match self.find_conn(user_id.0) {
            None => Vec::new(),
            Some(_) => {
                match token {
                    None => error_reply_exec(user_id, ClientError::Internal),
                    Some(t) => {
                        let mut effects: Vec<Effect> = Vec::new();
                        let ghost gt = t;
                        effects.push(
                            Effect::Send { to: user_id, packet: ClientPacket::NewJWT { token: t } },
                        );
                        proof {
                            assert(effects@ =~= seq![
                                Effect::Send {
                                    to: user_id,
                                    packet: ClientPacket::NewJWT { token: gt },
                                },
                            ]);
                        }
                        effects
                    },
                }
            },
        }
    }

    /// Answer the table sizes to an authenticated moderator: the number of
    /// live connections and the number of logged-in users.
    pub fn send_user_count(&self, user_id: InternalId) -> (effects: Vec<Effect>)
        requires
            self.wf(),
        ensures
            !self.has_conn(user_id.0) ==> effects@ == Seq::<Effect>::empty(),
            self.has_conn(user_id.0) ==> ({
                let c = self.conn_at(user_id.0);
                if c.user is None {
                    effects@ == error_reply(user_id, ClientError::NotLoggedIn)
                } else if !self.moderation.moderator_set().contains(c.user->0.uuid) {
                    effects@ == error_reply(user_id, ClientError::NotPermitted)
                } else {
                    effects@ == seq![
                        Effect::Send {
                            to: user_id,
                            packet: ClientPacket::UserCount {
                                connections: self.connections@.len() as u32,
                                logged_in: self.users@.len() as u32,
                            },
                        },
                    ]
                }
            }),
    {
        let i = match self.find_conn(user_id.0) {
            None => {
                return Vec::new();
            },
            Some(i) => i,
        };
        proof {
            lemma_conn_idx_of(*self, i as int);
        }
        let uuid = match &self.connections[i].user {
            None => {
                return error_reply_exec(user_id, ClientError::NotLoggedIn);
            },
            Some(user) => user.uuid,
        };
        if !self.moderation.is_moderator(uuid) {
            return error_reply_exec(user_id, ClientError::NotPermitted);
        }
        let mut effects: Vec<Effect> = Vec::new();
        effects.push(
            Effect::Send {
                to: user_id,
                packet: ClientPacket::UserCount {
                    connections: self.connections.len() as u32,
                    logged_in: self.users.len() as u32,
                },
            },
        );
        proof {
            assert(effects@ =~= seq![
                Effect::Send {
                    to: user_id,
                    packet: ClientPacket::UserCount {
                        connections: self.connections@.len() as u32,
                        logged_in: self.users@.len() as u32,
                    },
                },
            ]);
        }
        effects
    }

    /// Ban an account: moderators only. The UUID joins the banned set, the
    /// moderation state is persisted, and every connection authenticated
    /// under that UUID is forcibly closed (and its session dropped with its
    /// last connection). Banning an already banned UUID succeeds again and
    /// leaves the set unchanged.
    #[verifier::rlimit(100)]
    pub fn handle_ban_user(&mut self, user_id: InternalId, target: u128) -> (effects: Vec<Effect>)
        requires
            old(self).wf(),
        ensures
            final(self).wf(),
            final(self).config == old(self).config,
            final(self).auth_configured == old(self).auth_configured,
            final(self).next_id == old(self).next_id,
            !old(self).has_conn(user_id.0) ==> *final(self) == *old(self) && effects@
                == Seq::<Effect>::empty(),
            old(self).has_conn(user_id.0) ==> ({
                let c = old(self).conn_at(user_id.0);
                if c.user is None {
                    *final(self) == *old(self) && effects@ == error_reply(
                        user_id,
                        ClientError::NotLoggedIn,
                    )
                } else if !old(self).moderation.moderator_set().contains(c.user->0.uuid) {
                    *final(self) == *old(self) && effects@ == error_reply(
                        user_id,
                        ClientError::NotPermitted,
                    )
                } else {
                    &&& final(self).moderation.banned_set() == old(self).moderation.banned_set().insert(target)
                    &&& final(self).moderation.moderator_set() == old(self).moderation.moderator_set()
                    &&& final(self).connections@ == old(self).connections@.filter(
                        sel_not_banned(target),
                    )
                    &&& forall|k: int|
                        0 <= k < final(self).connections@.len() ==> !conn_has_uuid(
                            #[trigger] final(self).connections@[k],
                            target,
                        )
                    &&& forall|name: Seq<char>|
                        #![auto]
                        final(self).has_session(name) <==> old(self).has_session(name) && final(self).some_conn_named(name)
                    &&& effects@ == close_effects(old(self).connections@, target) + seq![
                        Effect::PersistModeration,
                        Effect::Send {
                            to: user_id,
                            packet: ClientPacket::Success { reason: SuccessReason::Ban },
                        },
                    ]
                }
            }),
    {
        let i = match self.find_conn(user_id.0) {
            None => {
                return Vec::new();
            },
            Some(i) => i,
        };
        proof {
            lemma_conn_idx_of(*self, i as int);
        }
        let uuid = match &self.connections[i].user {
            None => {
                return error_reply_exec(user_id, ClientError::NotLoggedIn);
            },
            Some(user) => user.uuid,
        };
        if !self.moderation.is_moderator(uuid) {
            return error_reply_exec(user_id, ClientError::NotPermitted);
        }

        let ghost orig = self.connections@;
        let ghost sel = sel_not_banned(target);
        let n = self.connections.len();
        let mut kept: Vec<Connection> = Vec::new();
        let mut effects: Vec<Effect> = Vec::new();
        let mut j: usize = 0;
        proof {
            reveal(Seq::filter);
            assert(orig.take(0) =~= Seq::<Connection>::empty());
        }
        while j < n
            invariant
                j <= n,
                n == orig.len(),
                sel == sel_not_banned(target),
                self.connections@ == orig.skip(j as int),
                self.users == old(self).users,
                self.moderation == old(self).moderation,
                self.config == old(self).config,
                self.auth_configured == old(self).auth_configured,
                self.next_id == old(self).next_id,
                kept@ == orig.take(j as int).filter(sel),
                effects@ == close_effects(orig.take(j as int), target),
            decreases n - j,
        {
            let c = self.connections.remove(0);
            proof {
                assert(orig.skip(j as int)[0] == orig[j as int]);
                assert(orig.skip(j as int).remove(0) =~= orig.skip(j + 1));
                reveal(Seq::filter);
                assert(orig.take(j + 1).drop_last() =~= orig.take(j as int));
                assert(orig.take(j + 1).last() == orig[j as int]);
            }
            let mut banned_here = false;
            match &c.user {
                Some(user) => {
                    if user.uuid == target {
                        banned_here = true;
                    }
                },
                None => {},
            }
            proof {
                assert(banned_here == !sel(orig[j as int]));
            }
            if banned_here {
                effects.push(Effect::Close { conn: InternalId(c.id) });
                proof {
                    assert(effects@.last() == Effect::Close {
                        conn: InternalId(orig[j as int].id),
                    });
                }
            } else {
                kept.push(c);
            }
            proof {
                assert(kept@ =~= orig.take(j + 1).filter(sel));
                assert(effects@ =~= close_effects(orig.take(j + 1), target));
            }
            j = j + 1;
        }
        proof {
            assert(orig.take(n as int) =~= orig);
        }
        self.connections = kept;
        self.moderation.ban(target);
        proof {
            let pre = *old(self);
            let mid = *self;
            lemma_filter_distinct_keys(orig, sel, |c: Connection| c.id);
            assert forall|p: int, q: int|
                0 <= p < q < mid.connections@.len() implies mid.connections@[p].id
                != mid.connections@[q].id by {}
            assert forall|k: int|
                0 <= k < mid.connections@.len() implies (#[trigger] mid.connections@[k]).id
                < mid.next_id && (mid.connections@[k].user is Some ==> mid.connections@[k].session_hash is None) by {
                assert(orig.contains(mid.connections@[k]));
                let p = choose|p: int| 0 <= p < orig.len() && orig[p] == mid.connections@[k];
            }
            assert forall|k: int|
                0 <= k < mid.connections@.len() && #[trigger] mid.connections@[k].user
                    is Some implies mid.has_session(mid.connections@[k].user->0.name@) by {
                assert(orig.contains(mid.connections@[k]));
                let p = choose|p: int| 0 <= p < orig.len() && orig[p] == mid.connections@[k];
                let name = pre.connections@[p].user->0.name@;
                assert(pre.has_session(name));
                let v = choose|v: int| 0 <= v < pre.users@.len() && pre.users@[v].name@ == name;
                assert(mid.users@[v].name@ == name);
            }
            assert(mid.wf_core());
        }
        self.prune_sessions();
        proof {
            let fin = *self;
            assert forall|k: int|
                0 <= k < fin.connections@.len() implies !conn_has_uuid(
                #[trigger] fin.connections@[k],
                target,
            ) by {
                Seq::lemma_filter_pred(orig, sel, k);
            }
        }
        effects.push(Effect::PersistModeration);
        effects.push(
            Effect::Send {
                to: user_id,
                packet: ClientPacket::Success { reason: SuccessReason::Ban },
            },
        );
        proof {
            assert(effects@ =~= close_effects(orig, target) + seq![
                Effect::PersistModeration,
                Effect::Send {
                    to: user_id,
                    packet: ClientPacket::Success { reason: SuccessReason::Ban },
                },
            ]);
        }
        effects
    }

    /// Lift a ban: moderators only. Unbanning a UUID that is not banned
    /// answers `NotBanned` and changes nothing; otherwise the set shrinks,
    /// the state is persisted, and the caller is told of the success.
    pub fn handle_unban_user(&mut self, user_id: InternalId, target: u128) -> (effects: Vec<
        Effect,
    >)
        requires
            old(self).wf(),
        ensures
            final(self).wf(),
            final(self).connections == old(self).connections,
            final(self).users == old(self).users,
            final(self).config == old(self).config,
            final(self).auth_configured == old(self).auth_configured,
            final(self).next_id == old(self).next_id,
            final(self).moderation.moderator_set() == old(self).moderation.moderator_set(),
            !old(self).has_conn(user_id.0) ==> *final(self) == *old(self) && effects@
                == Seq::<Effect>::empty(),
            old(self).has_conn(user_id.0) ==> ({
                let c = old(self).conn_at(user_id.0);
                if c.user is None {
                    *final(self) == *old(self) && effects@ == error_reply(
                        user_id,
                        ClientError::NotLoggedIn,
                    )
                } else if !old(self).moderation.moderator_set().contains(c.user->0.uuid) {
                    *final(self) == *old(self) && effects@ == error_reply(
                        user_id,
                        ClientError::NotPermitted,
                    )
                } else if !old(self).moderation.banned_set().contains(target) {
                    *final(self) == *old(self) && effects@ == error_reply(
                        user_id,
                        ClientError::NotBanned,
                    )
                } else {
                    &&& final(self).moderation.banned_set() == old(self).moderation.banned_set().remove(target)
                    &&& effects@ == seq![
                        Effect::PersistModeration,
                        Effect::Send {
                            to: user_id,
                            packet: ClientPacket::Success { reason: SuccessReason::Unban },
                        },
                    ]
                }
            }),
    {
        let i = match self.find_conn(user_id.0) {
            None => {
                return Vec::new();
            },
            Some(i) => i,
        };
        proof {
            lemma_conn_idx_of(*self, i as int);
        }
        let uuid = match &self.connections[i].user {
            None => {
                return error_reply_exec(user_id, ClientError::NotLoggedIn);
            },
            Some(user) => user.uuid,
        };
        if !self.moderation.is_moderator(uuid) {
            return error_reply_exec(user_id, ClientError::NotPermitted);
        }
        let was_banned = self.moderation.unban(target);
        proof {
            lemma_wf_frame(*old(self), *self);
        }
        if !was_banned {
            return error_reply_exec(user_id, ClientError::NotBanned);
        }
        let mut effects: Vec<Effect> = Vec::new();
        effects.push(Effect::PersistModeration);
        effects.push(
            Effect::Send {
                to: user_id,
                packet: ClientPacket::Success { reason: SuccessReason::Unban },
            },
        );
        proof {
            assert(effects@ =~= seq![
                Effect::PersistModeration,
                Effect::Send {
                    to: user_id,
                    packet: ClientPacket::Success { reason: SuccessReason::Unban },
                },
            ]);
        }
        effects
    }

    /// Public broadcast. Requires authentication; the sender must not be
    /// banned; the content must pass validation; one token is consumed from
    /// the sender's shared rate limiter. On success the message goes to every
    /// authenticated connection, the sender included.
    pub fn handle_message(&mut self, user_id: InternalId, content: String, now_ms: u64) -> (effects:
        Vec<Effect>)
        requires
            old(self).wf(),
        ensures
            final(self).wf(),
            final(self).connections == old(self).connections,
            final(self).moderation == old(self).moderation,
            final(self).config == old(self).config,
            final(self).auth_configured == old(self).auth_configured,
            final(self).next_id == old(self).next_id,
            !old(self).has_conn(user_id.0) ==> final(self).users == old(self).users && effects@
                == Seq::<Effect>::empty(),
            old(self).has_conn(user_id.0) ==> ({
                let c = old(self).conn_at(user_id.0);
                if c.user is None {
                    final(self).users == old(self).users && effects@ == error_reply(
                        user_id,
                        ClientError::NotLoggedIn,
                    )
                } else {
                    let user = c.user->0;
                    if old(self).moderation.banned_set().contains(user.uuid) {
                        final(self).users == old(self).users && effects@ == error_reply(
                            user_id,
                            ClientError::Banned,
                        )
                    } else if validate_spec(content@, old(self).config.max_length as nat)
                        is Some {
                        final(self).users == old(self).users && effects@ == error_reply(
                            user_id,
                            validate_spec(content@, old(self).config.max_length as nat)->0,
                        )
                    } else {
                        let uix = old(self).user_idx(user.name@);
                        let outcome = old(self).users@[uix].rate_limiter.check_spec(now_ms);
                        final(self).users@ == old(self).users@.update(
                            uix,
                            (UserSession { rate_limiter: outcome.0, ..old(self).users@[uix] }),
                        ) && if outcome.1 {
                            effects@ == sends_to(
                                old(self).connections@,
                                sel_authenticated(),
                                (ClientPacket::Message {
                                    author_id: user_id,
                                    author_name: user.name,
                                    content: content,
                                }),
                            )
                        } else {
                            effects@ == error_reply(user_id, ClientError::RateLimited)
                        }
                    }
                }
            }),
    {
        let i = match self.find_conn(user_id.0) {
            None => {
                return Vec::new();
            },
            Some(i) => i,
        };
        proof {
            lemma_conn_idx_of(*self, i as int);
        }
        let (name, uuid) = match &self.connections[i].user {
            None => {
                return error_reply_exec(user_id, ClientError::NotLoggedIn);
            },
            Some(user) => (user.name.clone(), user.uuid),
        };
        if self.moderation.is_banned(uuid) {
            return error_reply_exec(user_id, ClientError::Banned);
        }
        match validate_message(&content, self.config.max_length) {
            Some(e) => {
                return error_reply_exec(user_id, e);
            },
            None => {},
        }
        let uix = match self.find_user(&name) {
            None => {
                proof {
                    assert(false);
                }
                return Vec::new();
            },
            Some(u) => u,
        };
        proof {
            lemma_user_idx_of(*self, uix as int);
        }
        let admitted = self.users[uix].rate_limiter.check(now_ms);
        proof {
            lemma_wf_after_limiter_update(*old(self), *self, uix as int);
        }
        if !admitted {
            return error_reply_exec(user_id, ClientError::RateLimited);
        }
        self.broadcast_message(user_id, &name, &content)
    }

    /// Directed message. Validated and rate-limited like a broadcast; it is
    /// delivered to every connection of the named receiver that accepts
    /// private messages, and the sender is not echoed a copy.
    pub fn handle_private_message(
        &mut self,
        user_id: InternalId,
        receiver: String,
        content: String,
        now_ms: u64,
    ) -> (effects: Vec<Effect>)
        requires
            old(self).wf(),
        ensures
            final(self).wf(),
            final(self).connections == old(self).connections,
            final(self).moderation == old(self).moderation,
            final(self).config == old(self).config,
            final(self).auth_configured == old(self).auth_configured,
            final(self).next_id == old(self).next_id,
            !old(self).has_conn(user_id.0) ==> final(self).users == old(self).users && effects@
                == Seq::<Effect>::empty(),
            old(self).has_conn(user_id.0) ==> ({
                let c = old(self).conn_at(user_id.0);
                if c.user is None {
                    final(self).users == old(self).users && effects@ == error_reply(
                        user_id,
                        ClientError::NotLoggedIn,
                    )
                } else {
                    let user = c.user->0;
                    if old(self).moderation.banned_set().contains(user.uuid) {
                        final(self).users == old(self).users && effects@ == error_reply(
                            user_id,
                            ClientError::Banned,
                        )
                    } else if validate_spec(content@, old(self).config.max_length as nat)
                        is Some {
                        final(self).users == old(self).users && effects@ == error_reply(
                            user_id,
                            validate_spec(content@, old(self).config.max_length as nat)->0,
                        )
                    } else if !old(self).has_session(receiver@) {
                        final(self).users == old(self).users && effects@ == error_reply(
                            user_id,
                            ClientError::InvalidId,
                        )
                    } else if !old(self).some_accepting(receiver@) {
                        final(self).users == old(self).users && effects@ == error_reply(
                            user_id,
                            ClientError::PrivateMessageNotAccepted,
                        )
                    } else {
                        let uix = old(self).user_idx(user.name@);
                        let outcome = old(self).users@[uix].rate_limiter.check_spec(now_ms);
                        final(self).users@ == old(self).users@.update(
                            uix,
                            (UserSession { rate_limiter: outcome.0, ..old(self).users@[uix] }),
                        ) && if outcome.1 {
                            effects@ == sends_to(
                                old(self).connections@,
                                sel_private_recipient(receiver@),
                                (ClientPacket::PrivateMessage {
                                    author_id: user_id,
                                    author_name: user.name,
                                    content: content,
                                }),
                            )
                        } else {
                            effects@ == error_reply(user_id, ClientError::RateLimited)
                        }
                    }
                }
            }),
    {
        let i = match self.find_conn(user_id.0) {
            None => {
                return Vec::new();
            },
            Some(i) => i,
        };
        proof {
            lemma_conn_idx_of(*self, i as int);
        }
        let (name, uuid) = match &self.connections[i].user {
            None => {
                return error_reply_exec(user_id, ClientError::NotLoggedIn);
            },
            Some(user) => (user.name.clone(), user.uuid),
        };
        if self.moderation.is_banned(uuid) {
            return error_reply_exec(user_id, ClientError::Banned);
        }
        match validate_message(&content, self.config.max_length) {
            Some(e) => {
                return error_reply_exec(user_id, e);
            },
            None => {},
        }
        match self.find_user(&receiver) {
            None => {
                return error_reply_exec(user_id, ClientError::InvalidId);
            },
            Some(_) => {},
        }
        if !self.any_accepting(&receiver) {
            return error_reply_exec(user_id, ClientError::PrivateMessageNotAccepted);
        }
        let uix = match self.find_user(&name) {
            None => {
                proof {
                    assert(false);
                }
                return Vec::new();
            },
            Some(u) => u,
        };
        proof {
            lemma_user_idx_of(*self, uix as int);
        }
        let admitted = self.users[uix].rate_limiter.check(now_ms);
        proof {
            lemma_wf_after_limiter_update(*old(self), *self, uix as int);
        }
        if !admitted {
            return error_reply_exec(user_id, ClientError::RateLimited);
        }
        self.private_message_effects(user_id, &name, &receiver, &content)
    }

    /// Whether some connection of `receiver` accepts private messages.
    pub open spec fn some_accepting(self, receiver: Seq<char>) -> bool {
        exists|i: int|
            0 <= i < self.connections@.len() && sel_private_recipient(receiver)(
                self.connections@[i],
            )
    }

    fn any_accepting(&self, receiver: &String) -> (r: bool)
        ensures
            r == self.some_accepting(receiver@),
    {
        let n = self.connections.len();
        let mut i: usize = 0;
        while i < n
            invariant
                i <= n,
                n == self.connections@.len(),
                forall|k: int|
                    0 <= k < i ==> !sel_private_recipient(receiver@)(
                        #[trigger] self.connections@[k],
                    ),
            decreases n - i,
        {
            match &self.connections[i].user {
                Some(user) => {
                    if user.allow_messages && user.name.eq(receiver) {
                        proof {
                            assert(sel_private_recipient(receiver@)(self.connections@[i as int]));
                        }
                        return true;
                    }
                },
                None => {},
            }
            proof {
                assert(!sel_private_recipient(receiver@)(self.connections@[i as int]));
            }
            i = i + 1;
        }
        false
    }

    fn broadcast_message(&self, author_id: InternalId, author_name: &String, content: &String) -> (r:
        Vec<Effect>)
        ensures
            r@ == sends_to(
                self.connections@,
                sel_authenticated(),
                (ClientPacket::Message {
                    author_id: author_id,
                    author_name: *author_name,
                    content: *content,
                }),
            ),
    {
        let ghost p = ClientPacket::Message {
            author_id: author_id,
            author_name: *author_name,
            content: *content,
        };
        let n = self.connections.len();
        let mut r: Vec<Effect> = Vec::new();
        let mut i: usize = 0;
        proof {
            assert(self.connections@.take(0) =~= Seq::<Connection>::empty());
        }
        while i < n
            invariant
                i <= n,
                n == self.connections@.len(),
                p == (ClientPacket::Message {
                    author_id: author_id,
                    author_name: *author_name,
                    content: *content,
                }),
                r@ == sends_to(self.connections@.take(i as int), sel_authenticated(), p),
            decreases n - i,
        {
            proof {
                assert(self.connections@.take(i + 1).drop_last() =~= self.connections@.take(
                    i as int,
                ));
                assert(self.connections@.take(i + 1).last() == self.connections@[i as int]);
            }
            if self.connections[i].user.is_some() {
                let an = author_name.clone();
                let ct = content.clone();
                proof {
                    assert(an == *author_name);
                    assert(ct == *content);
                }
                r.push(
                    Effect::Send {
                        to: InternalId(self.connections[i].id),
                        packet: ClientPacket::Message {
                            author_id: author_id,
                            author_name: an,
                            content: ct,
                        },
                    },
                );
                proof {
                    assert(sel_authenticated()(self.connections@[i as int]));
                    assert((r@.last() == Effect::Send {
                        to: InternalId(self.connections@[i as int].id),
                        packet: p,
                    }));
                    assert(r@ =~= sends_to(self.connections@.take(i + 1), sel_authenticated(), p));
                }
            } else {
                proof {
                    assert(!sel_authenticated()(self.connections@[i as int]));
                    assert(r@ =~= sends_to(self.connections@.take(i + 1), sel_authenticated(), p));
                }
            }
            i = i + 1;
        }
        proof {
            assert(self.connections@.take(n as int) =~= self.connections@);
        }
        r
    }

    fn private_message_effects(
        &self,
        author_id: InternalId,
        author_name: &String,
        receiver: &String,
        content: &String,
    ) -> (r: Vec<Effect>)
        ensures
            r@ == sends_to(
                self.connections@,
                sel_private_recipient(receiver@),
                (ClientPacket::PrivateMessage {
                    author_id: author_id,
                    author_name: *author_name,
                    content: *content,
                }),
            ),
    {
        let ghost p = ClientPacket::PrivateMessage {
            author_id: author_id,
            author_name: *author_name,
            content: *content,
        };
        let ghost sel = sel_private_recipient(receiver@);
        let n = self.connections.len();
        let mut r: Vec<Effect> = Vec::new();
        let mut i: usize = 0;
        proof {
            assert(self.connections@.take(0) =~= Seq::<Connection>::empty());
        }
        while i < n
            invariant
                i <= n,
                n == self.connections@.len(),
                sel == sel_private_recipient(receiver@),
                p == (ClientPacket::PrivateMessage {
                    author_id: author_id,
                    author_name: *author_name,
                    content: *content,
                }),
                r@ == sends_to(self.connections@.take(i as int), sel, p),
            decreases n - i,
        {
            proof {
                assert(self.connections@.take(i + 1).drop_last() =~= self.connections@.take(
                    i as int,
                ));
                assert(self.connections@.take(i + 1).last() == self.connections@[i as int]);
            }
            let mut selected = false;
            match &self.connections[i].user {
                Some(user) => {
                    if user.allow_messages && user.name.eq(receiver) {
                        selected = true;
                    }
                },
                None => {},
            }
            proof {
                assert(selected == sel(self.connections@[i as int]));
            }
            if selected {
                r.push(
                    Effect::Send {
                        to: InternalId(self.connections[i].id),
                        packet: ClientPacket::PrivateMessage {
                            author_id: author_id,
                            author_name: author_name.clone(),
                            content: content.clone(),
                        },
                    },
                );
                proof {
                    assert(r@.last() == Effect::Send {
                        to: InternalId(self.connections@[i as int].id),
                        packet: p,
                    });
                }
            }
            proof {
                assert(r@ =~= sends_to(self.connections@.take(i + 1), sel, p));
            }
            i = i + 1;
        }
        proof {
            assert(self.connections@.take(n as int) =~= self.connections@);
        }
        r
    }
}

/// Replacing one session's rate limiter with another well-formed limiter of
/// the same policy keeps the hub well-formed.
proof fn lemma_wf_after_limiter_update(pre: ChatServer, post: ChatServer, uix: int)
    requires
        pre.wf(),
        0 <= uix < pre.users@.len(),
        post.connections == pre.connections,
        post.moderation == pre.moderation,
        post.config == pre.config,
        post.auth_configured == pre.auth_configured,
        post.next_id == pre.next_id,
        post.users@.len() == pre.users@.len(),
        forall|u: int|
            0 <= u < pre.users@.len() && u != uix ==> post.users@[u] == pre.users@[u],
        post.users@[uix].name@ == pre.users@[uix].name@,
        post.users@[uix].rate_limiter.wf(),
        post.users@[uix].rate_limiter.config == pre.config,
    ensures
        post.wf(),
{
    assert forall|u: int, v: int|
        0 <= u < v < post.users@.len() implies post.users@[u].name@ != post.users@[v].name@ by {
        assert(post.users@[u].name@ == pre.users@[u].name@);
        assert(post.users@[v].name@ == pre.users@[v].name@);
    }
    assert forall|u: int|
        0 <= u < post.users@.len() implies post.some_conn_named(
        #[trigger] post.users@[u].name@,
    ) by {
        assert(post.users@[u].name@ == pre.users@[u].name@);
        assert(pre.some_conn_named(pre.users@[u].name@));
        let k = choose|k: int|
            0 <= k < pre.connections@.len() && conn_authed_as(
                pre.connections@[k],
                pre.users@[u].name@,
            );
        assert(conn_authed_as(post.connections@[k], post.users@[u].name@));
    }
    assert forall|i: int|
        0 <= i < post.connections@.len() && #[trigger] post.connections@[i].user
            is Some implies post.has_session(post.connections@[i].user->0.name@) by {
        let name = post.connections@[i].user->0.name@;
        assert(pre.has_session(name));
        let v = choose|v: int| 0 <= v < pre.users@.len() && pre.users@[v].name@ == name;
        assert(post.users@[v].name@ == name);
    }
    assert forall|u: int|
        0 <= u < post.users@.len() implies (#[trigger] post.users@[u].rate_limiter).wf()
        && post.users@[u].rate_limiter.config == post.config by {
        if u != uix {
            assert(post.users@[u] == pre.users@[u]);
        }
    }
}

/// The index found by a linear scan is the index `conn_idx` speaks of.
proof fn lemma_conn_idx_of(s: ChatServer, i: int)
    requires
        forall|p: int, q: int|
            0 <= p < q < s.connections@.len() ==> s.connections@[p].id != s.connections@[q].id,
        0 <= i < s.connections@.len(),
    ensures
        s.has_conn(s.connections@[i].id),
        s.conn_idx(s.connections@[i].id) == i,
        s.conn_at(s.connections@[i].id) == s.connections@[i],
{
    let id = s.connections@[i].id;
    assert(s.has_conn(id));
    let j = s.conn_idx(id);
    assert(s.connections@[j].id == id);
    if i < j {
        assert(s.connections@[i].id != s.connections@[j].id);
    } else if j < i {
        assert(s.connections@[j].id != s.connections@[i].id);
    }
}

/// The index found by a linear scan is the index `user_idx` speaks of.
proof fn lemma_user_idx_of(s: ChatServer, u: int)
    requires
        forall|p: int, q: int|
            0 <= p < q < s.users@.len() ==> s.users@[p].name@ != s.users@[q].name@,
        0 <= u < s.users@.len(),
    ensures
        s.has_session(s.users@[u].name@),
        s.user_idx(s.users@[u].name@) == u,
        s.session_at(s.users@[u].name@) == s.users@[u],
{
    let name = s.users@[u].name@;
    assert(s.has_session(name));
    let v = s.user_idx(name);
    assert(s.users@[v].name@ == name);
    if u < v {
        assert(s.users@[u].name@ != s.users@[v].name@);
    } else if v < u {
        assert(s.users@[v].name@ != s.users@[u].name@);
    }
}

/// A single error packet back to the sender.
pub open spec fn error_reply(to: InternalId, e: ClientError) -> Seq<Effect> {
    seq![Effect::Send { to: to, packet: ClientPacket::Error { message: e } }]
}

fn error_reply_exec(to: InternalId, e: ClientError) -> (r: Vec<Effect>)
    ensures
        r@ == error_reply(to, e),
{
    let mut r: Vec<Effect> = Vec::new();
    r.push(Effect::Send { to: to, packet: ClientPacket::Error { message: e } });
    proof {
        assert(r@ =~= error_reply(to, e));
    }
    r
}

/// Connections that receive a public broadcast: every authenticated one.
pub open spec fn sel_authenticated() -> spec_fn(Connection) -> bool {
    |c: Connection| c.user is Some
}

/// Connections that receive a private message for `receiver`: authenticated
/// under that name and accepting private messages.
pub open spec fn sel_private_recipient(receiver: Seq<char>) -> spec_fn(Connection) -> bool {
    |c: Connection| conn_authed_as(c, receiver) && c.user->0.allow_messages
}

/// One `Send` of `p` for every connection that `sel` selects, in table order.
pub open spec fn sends_to(
    conns: Seq<Connection>,
    sel: spec_fn(Connection) -> bool,
    p: ClientPacket,
) -> Seq<Effect>
    decreases conns.len(),
{
    if conns.len() == 0 {
        Seq::empty()
    } else {
        sends_to(conns.drop_last(), sel, p) + (if sel(conns.last()) {
            seq![Effect::Send { to: InternalId(conns.last().id), packet: p }]
        } else {
            Seq::empty()
        })
    }
}

/// A change that leaves both tables in place keeps the hub well-formed.
proof fn lemma_wf_frame(pre: ChatServer, post: ChatServer)
    requires
        pre.wf(),
        post.connections == pre.connections,
        post.users == pre.users,
        post.next_id == pre.next_id,
        post.config == pre.config,
        post.moderation.wf(),
    ensures
        post.wf(),
{
    assert forall|u: int|
        0 <= u < post.users@.len() implies post.some_conn_named(
        #[trigger] post.users@[u].name@,
    ) by {
        let name = pre.users@[u].name@;
        let k = choose|k: int|
            0 <= k < pre.connections@.len() && conn_authed_as(pre.connections@[k], name);
        assert(conn_authed_as(post.connections@[k], name));
    }
    assert forall|i: int|
        0 <= i < post.connections@.len() && #[trigger] post.connections@[i].user
            is Some implies post.has_session(post.connections@[i].user->0.name@) by {
        let name = pre.connections@[i].user->0.name@;
        assert(pre.has_session(name));
        let v = choose|v: int| 0 <= v < pre.users@.len() && pre.users@[v].name@ == name;
        assert(post.users@[v].name@ == name);
    }
}

/// Connections that survive a ban of `uuid`.
pub open spec fn sel_not_banned(uuid: u128) -> spec_fn(Connection) -> bool {
    |c: Connection| !conn_has_uuid(c, uuid)
}

/// One `Close` for every connection authenticated under `uuid`, in table
/// order.
pub open spec fn close_effects(conns: Seq<Connection>, uuid: u128) -> Seq<Effect>
    decreases conns.len(),
{
    if conns.len() == 0 {
        Seq::empty()
    } else {
        close_effects(conns.drop_last(), uuid) + (if conn_has_uuid(conns.last(), uuid) {
            seq![Effect::Close { conn: InternalId(conns.last().id) }]
        } else {
            Seq::empty()
        })
    }
}

/// A single success packet back to the sender.
pub open spec fn success_reply(to: InternalId, reason: SuccessReason) -> Seq<Effect> {
    seq![Effect::Send { to: to, packet: ClientPacket::Success { reason: reason } }]
}

fn success_reply_exec(to: InternalId, reason: SuccessReason) -> (r: Vec<Effect>)
    ensures
        r@ == success_reply(to, reason),
{
    let mut r: Vec<Effect> = Vec::new();
    r.push(Effect::Send { to: to, packet: ClientPacket::Success { reason: reason } });
    proof {
        assert(r@ =~= success_reply(to, reason));
    }
    r
}

/// The challenge bytes with the top bit of the first byte cleared, so that
/// the hex encoding is never sign-ambiguous downstream.
pub open spec fn cleared_bytes(b: Seq<u8>) -> Seq<u8> {
    b.update(0, b[0] & 0x7f)
}

/// What the first half of the Mojang handshake does, for challenge bytes
/// `bytes`: an unknown connection is ignored, an authenticated one is
/// refused, and otherwise the trimmed hex encoding of the cleared bytes is
/// stored as the pending nonce and sent back as the session hash.
pub open spec fn mojang_challenge_transition(
    pre: ChatServer,
    post: ChatServer,
    effects: Seq<Effect>,
    id: InternalId,
    bytes: Seq<u8>,
) -> bool {
    if !pre.has_conn(id.0) {
        post == pre && effects == Seq::<Effect>::empty()
    } else if pre.conn_at(id.0).user is Some {
        post == pre && effects == error_reply(id, ClientError::AlreadyLoggedIn)
    } else {
        let idx = pre.conn_idx(id.0);
        let stored = post.connections@[idx].session_hash;
        &&& post.users == pre.users
        &&& post.moderation == pre.moderation
        &&& post.config == pre.config
        &&& post.auth_configured == pre.auth_configured
        &&& post.next_id == pre.next_id
        &&& post.connections@ == pre.connections@.update(
            idx,
            (Connection { session_hash: stored, ..pre.connections@[idx] }),
        )
        &&& stored is Some
        &&& stored->0@ == trimmed_hex(cleared_bytes(bytes))
        &&& effects == seq![
            Effect::Send { to: id, packet: ClientPacket::MojangInfo { session_hash: stored->0 } },
        ]
    }
}

/// What a completed login does for connection `id`: the user is bound to the
/// connection (clearing any pending nonce), a session with a fresh rate
/// limiter is created for the user's first connection, and the client is told
/// of the success.
pub open spec fn login_transition(
    pre: ChatServer,
    post: ChatServer,
    effects: Seq<Effect>,
    id: InternalId,
    info: User,
    now_ms: u64,
) -> bool {
    let idx = pre.conn_idx(id.0);
    &&& post.connections@ == pre.connections@.update(
        idx,
        (Connection { id: pre.connections@[idx].id, session_hash: None, user: Some(info) }),
    )
    &&& (if pre.has_session(info.name@) {
        post.users == pre.users
    } else {
        post.users@ == pre.users@.push(
            UserSession {
                name: info.name,
                rate_limiter: RateLimiter::fresh_spec(pre.config, now_ms),
            },
        )
    })
    &&& effects == success_reply(id, SuccessReason::Login)
}

/// Replacing one unauthenticated connection's pending nonce keeps the hub
/// well-formed.
proof fn lemma_wf_after_nonce_update(pre: ChatServer, post: ChatServer, idx: int)
    requires
        pre.wf(),
        0 <= idx < pre.connections@.len(),
        pre.connections@[idx].user is None,
        post.users == pre.users,
        post.moderation == pre.moderation,
        post.config == pre.config,
        post.auth_configured == pre.auth_configured,
        post.next_id == pre.next_id,
        post.connections@.len() == pre.connections@.len(),
        forall|k: int|
            0 <= k < pre.connections@.len() && k != idx ==> post.connections@[k]
                == pre.connections@[k],
        post.connections@[idx].id == pre.connections@[idx].id,
        post.connections@[idx].user == pre.connections@[idx].user,
    ensures
        post.wf(),
{
    assert forall|k: int|
        0 <= k < post.connections@.len() implies (#[trigger] post.connections@[k]).id
        == pre.connections@[k].id && post.connections@[k].user == pre.connections@[k].user by {}
    assert forall|u: int|
        0 <= u < post.users@.len() implies post.some_conn_named(
        #[trigger] post.users@[u].name@,
    ) by {
        let name = pre.users@[u].name@;
        let k = choose|k: int|
            0 <= k < pre.connections@.len() && conn_authed_as(pre.connections@[k], name);
        assert(k != idx);
        assert(conn_authed_as(post.connections@[k], name));
    }
    assert forall|k: int|
        0 <= k < post.connections@.len() && #[trigger] post.connections@[k].user
            is Some implies post.has_session(post.connections@[k].user->0.name@) by {
        assert(k != idx);
        let name = pre.connections@[k].user->0.name@;
        assert(pre.has_session(name));
        let v = choose|v: int| 0 <= v < pre.users@.len() && pre.users@[v].name@ == name;
        assert(post.users@[v].name@ == name);
    }
}

/// Binding a verified user to an unauthenticated connection, together with
/// creating the user's session when it is the first, keeps the hub
/// well-formed.
proof fn lemma_wf_after_login(pre: ChatServer, post: ChatServer, idx: int, info: User, now_ms: u64)
    requires
        pre.wf(),
        0 <= idx < pre.connections@.len(),
        pre.connections@[idx].user is None,
        post.moderation == pre.moderation,
        post.config == pre.config,
        post.auth_configured == pre.auth_configured,
        post.next_id == pre.next_id,
        post.connections@ == pre.connections@.update(
            idx,
            (Connection { id: pre.connections@[idx].id, session_hash: None, user: Some(info) }),
        ),
        (if pre.has_session(info.name@) {
            post.users == pre.users
        } else {
            post.users@ == pre.users@.push(
                UserSession {
                    name: info.name,
                    rate_limiter: RateLimiter::fresh_spec(pre.config, now_ms),
                },
            )
        }),
    ensures
        post.wf(),
{
    vstd::arithmetic::mul::lemma_mul_upper_bound(
        pre.config.capacity as int,
        0xffff_ffff,
        pre.config.regen_time_ms as int,
        0xffff_ffff_ffff_ffff,
    );
    vstd::arithmetic::mul::lemma_mul_nonnegative(
        pre.config.capacity as int,
        pre.config.regen_time_ms as int,
    );
    assert(RateLimiter::fresh_spec(pre.config, now_ms).wf());
    assert forall|k: int|
        0 <= k < post.connections@.len() implies (#[trigger] post.connections@[k]).id
        == pre.connections@[k].id by {}
    assert forall|u: int, v: int|
        0 <= u < v < post.users@.len() implies post.users@[u].name@ != post.users@[v].name@ by {
        if v < pre.users@.len() {
            assert(post.users@[u] == pre.users@[u] && post.users@[v] == pre.users@[v]);
        } else {
            assert(!pre.has_session(info.name@));
            assert(post.users@[u] == pre.users@[u]);
            if post.users@[u].name@ == info.name@ {
                assert(pre.users@[u].name@ == info.name@);
            }
        }
    }
    assert forall|u: int|
        0 <= u < post.users@.len() implies post.some_conn_named(
        #[trigger] post.users@[u].name@,
    ) by {
        if u < pre.users@.len() {
            let name = pre.users@[u].name@;
            if name == info.name@ {
                assert(conn_authed_as(post.connections@[idx], post.users@[u].name@));
            } else {
                let k = choose|k: int|
                    0 <= k < pre.connections@.len() && conn_authed_as(pre.connections@[k], name);
                assert(k != idx);
                assert(conn_authed_as(post.connections@[k], name));
            }
        } else {
            assert(post.users@[u].name@ == info.name@);
            assert(conn_authed_as(post.connections@[idx], info.name@));
        }
    }
    assert forall|k: int|
        0 <= k < post.connections@.len() && #[trigger] post.connections@[k].user
            is Some implies post.has_session(post.connections@[k].user->0.name@) by {
        if k == idx {
            if pre.has_session(info.name@) {
                let v = choose|v: int|
                    0 <= v < pre.users@.len() && pre.users@[v].name@ == info.name@;
                assert(post.users@[v].name@ == info.name@);
            } else {
                assert(post.users@[post.users@.len() - 1].name@ == info.name@);
            }
        } else {
            let name = pre.connections@[k].user->0.name@;
            let v = choose|v: int| 0 <= v < pre.users@.len() && pre.users@[v].name@ == name;
            assert(post.users@[v].name@ == name);
        }
    }
    assert forall|u: int|
        0 <= u < post.users@.len() implies (#[trigger] post.users@[u].rate_limiter).wf()
        && post.users@[u].rate_limiter.config == post.config by {
        if u < pre.users@.len() {
            assert(post.users@[u] == pre.users@[u]);
        }
    }
}

/// Relies on rand::random: a 20-byte array of fresh random bytes. Nothing is
/// promised of the values; callers state what holds of every outcome.
#[verifier::external_body]
fn random_bytes20() -> (r: [u8; 20]) {
    rand::random::<[u8; 20]>()
}

/// The sessions that still have an authenticated connection in `conns`.
pub open spec fn session_live(conns: Seq<Connection>) -> spec_fn(UserSession) -> bool {
    |u: UserSession|
        exists|i: int| 0 <= i < conns.len() && conn_authed_as(conns[i], u.name@)
}

/// The elements that a filter keeps come from the original sequence, and
/// pairwise-distinct keys stay pairwise distinct.
pub proof fn lemma_filter_distinct_keys<A, K>(s: Seq<A>, pred: spec_fn(A) -> bool, key: spec_fn(
    A,
) -> K)
    requires
        forall|i: int, j: int| 0 <= i < j < s.len() ==> key(s[i]) != key(s[j]),
    ensures
        forall|k: int|
            0 <= k < s.filter(pred).len() ==> s.contains(#[trigger] s.filter(pred)[k]),
        forall|i: int, j: int|
            0 <= i < j < s.filter(pred).len() ==> key(#[trigger] s.filter(pred)[i]) != key(
                #[trigger] s.filter(pred)[j],
            ),
    decreases s.len(),
{
    reveal(Seq::filter);
    if s.len() > 0 {
        let sub = s.drop_last();
        let f = s.filter(pred);
        let fsub = sub.filter(pred);
        lemma_filter_distinct_keys(sub, pred, key);
        assert forall|k: int| 0 <= k < f.len() implies s.contains(#[trigger] f[k]) by {
            if pred(s.last()) && k == f.len() - 1 {
                assert(s[s.len() - 1] == f[k]);
            } else {
                assert(f[k] == fsub[k]);
                assert(sub.contains(fsub[k]));
                let p = choose|p: int| 0 <= p < sub.len() && sub[p] == fsub[k];
                assert(s[p] == f[k]);
            }
        }
        assert forall|i: int, j: int|
            0 <= i < j < f.len() implies key(#[trigger] f[i]) != key(#[trigger] f[j]) by {
            if pred(s.last()) && j == f.len() - 1 {
                assert(f[i] == fsub[i]);
                assert(sub.contains(fsub[i]));
                let p = choose|p: int| 0 <= p < sub.len() && sub[p] == fsub[i];
                assert(key(s[p]) != key(s[s.len() - 1]));
            } else {
                assert(f[i] == fsub[i] && f[j] == fsub[j]);
            }
        }
    }
}

} // verus!
