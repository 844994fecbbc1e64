//! The moderation state: the set of banned account UUIDs and the set of
//! moderator UUIDs. The hub is the sole writer; loading the backing file and
//! rewriting it after each mutation happen outside the hub.

use vstd::prelude::*;

verus! {

/// Banned and moderator account UUIDs, each list free of duplicates.
#[derive(Clone, Debug)]
pub struct Moderation {
    banned: Vec<u128>,
    moderators: Vec<u128>,
}

impl Moderation {
    pub closed spec fn banned_set(self) -> Set<u128> {
        self.banned@.to_set()
    }

    pub closed spec fn moderator_set(self) -> Set<u128> {
        self.moderators@.to_set()
    }

    pub closed spec fn wf(self) -> bool {
        &&& forall|i: int, j: int|
            0 <= i < j < self.banned@.len() ==> self.banned@[i] != self.banned@[j]
        &&& forall|i: int, j: int|
            0 <= i < j < self.moderators@.len() ==> self.moderators@[i] != self.moderators@[j]
    }

    /// Builds the state from loaded lists; duplicates are dropped.
    pub fn from_lists(banned: &Vec<u128>, moderators: &Vec<u128>) -> (r: Moderation)
        ensures
            r.wf(),
            r.banned_set() == banned@.to_set(),
            r.moderator_set() == moderators@.to_set(),
    {
        let mut r = Moderation { banned: Vec::new(), moderators: Vec::new() };
        proof {
            assert(Seq::<u128>::empty().to_set() =~= Set::<u128>::empty());
            assert(banned@.take(0) =~= Seq::<u128>::empty());
            assert(moderators@.take(0) =~= Seq::<u128>::empty());
        }
        let n = banned.len();
        let mut i: usize = 0;
        while i < n
            invariant
                i <= n,
                n == banned@.len(),
                r.wf(),
                r.moderator_set() == Set::<u128>::empty(),
                r.banned_set() == banned@.take(i as int).to_set(),
            decreases n - i,
        {
            proof {
                assert(banned@.take(i + 1) =~= banned@.take(i as int).push(banned@[i as int]));
                lemma_to_set_push(banned@.take(i as int), banned@[i as int]);
            }
            r.ban(banned[i]);
            i = i + 1;
        }
        let m = moderators.len();
        let mut j: usize = 0;
        while j < m
            invariant
                j <= m,
                m == moderators@.len(),
                r.wf(),
                r.banned_set() == banned@.take(banned@.len() as int).to_set(),
                r.moderator_set() == moderators@.take(j as int).to_set(),
            decreases m - j,
        {
            proof {
                assert(moderators@.take(j + 1) =~= moderators@.take(j as int).push(
                    moderators@[j as int],
                ));
                lemma_to_set_push(moderators@.take(j as int), moderators@[j as int]);
            }
            r.add_moderator(moderators[j]);
            j = j + 1;
        }
        proof {
            assert(banned@.take(banned@.len() as int) =~= banned@);
            assert(moderators@.take(moderators@.len() as int) =~= moderators@);
        }
        r
    }

    /// An empty state, for a missing backing file.
    pub fn empty() -> (r: Moderation)
        ensures
            r.wf(),
            r.banned_set() == Set::<u128>::empty(),
            r.moderator_set() == Set::<u128>::empty(),
    {
        proof {
            assert(Seq::<u128>::empty().to_set() =~= Set::<u128>::empty());
        }
        Moderation { banned: Vec::new(), moderators: Vec::new() }
    }

    pub fn is_banned(&self, uuid: u128) -> (r: bool)
        ensures
            r == self.banned_set().contains(uuid),
    {
        contains_uuid(&self.banned, uuid)
    }

    pub fn is_moderator(&self, uuid: u128) -> (r: bool)
        ensures
            r == self.moderator_set().contains(uuid),
    {
        contains_uuid(&self.moderators, uuid)
    }

    /// Inserts `uuid` into the banned set; answers whether the set changed.
    pub fn ban(&mut self, uuid: u128) -> (changed: bool)
        requires
            old(self).wf(),
        ensures
            final(self).wf(),
            final(self).banned_set() == old(self).banned_set().insert(uuid),
            final(self).moderator_set() == old(self).moderator_set(),
            changed == !old(self).banned_set().contains(uuid),
            !changed ==> *final(self) == *old(self),
    {
        if contains_uuid(&self.banned, uuid) {
            proof {
                assert(self.banned_set() =~= self.banned_set().insert(uuid));
            }
            false
        } else {
            self.banned.push(uuid);
            proof {
                lemma_to_set_push(old(self).banned@, uuid);
            }
            true
        }
    }

    /// Inserts `uuid` into the moderator set.
    pub fn add_moderator(&mut self, uuid: u128)
        requires
            old(self).wf(),
        ensures
            final(self).wf(),
            final(self).moderator_set() == old(self).moderator_set().insert(uuid),
            final(self).banned_set() == old(self).banned_set(),
    {
        if !contains_uuid(&self.moderators, uuid) {
            self.moderators.push(uuid);
            proof {
                lemma_to_set_push(old(self).moderators@, uuid);
            }
        } else {
            proof {
                assert(self.moderator_set() =~= old(self).moderator_set().insert(uuid));
            }
        }
    }

    /// Removes `uuid` from the banned set; answers whether it was banned.
    pub fn unban(&mut self, uuid: u128) -> (was_banned: bool)
        requires
            old(self).wf(),
        ensures
            final(self).wf(),
            final(self).banned_set() == old(self).banned_set().remove(uuid),
            final(self).moderator_set() == old(self).moderator_set(),
            was_banned == old(self).banned_set().contains(uuid),
            !was_banned ==> *final(self) == *old(self),
    {
        let n = self.banned.len();
        let mut i: usize = 0;
        while i < n
            invariant
                i <= n,
                n == self.banned@.len(),
                *self == *old(self),
                old(self).wf(),
                forall|k: int| 0 <= k < i ==> self.banned@[k] != uuid,
            decreases n - i,
        {
            if self.banned[i] == uuid {
                self.banned.remove(i);
                proof {
                    lemma_remove_unique(old(self).banned@, i as int, uuid);
                }
                return true;
            }
            i = i + 1;
        }
        proof {
            assert(!self.banned_set().contains(uuid));
            assert(self.banned_set() =~= self.banned_set().remove(uuid));
        }
        false
    }

    /// The banned UUIDs, for persisting the state.
    pub fn banned_list(&self) -> (r: &Vec<u128>)
        ensures
            r@.to_set() == self.banned_set(),
    {
        &self.banned
    }

    /// The moderator UUIDs, for persisting the state.
    pub fn moderator_list(&self) -> (r: &Vec<u128>)
        ensures
            r@.to_set() == self.moderator_set(),
    {
        &self.moderators
    }
}

fn contains_uuid(v: &Vec<u128>, uuid: u128) -> (r: bool)
    ensures
        r == v@.to_set().contains(uuid),
{
    proof {
        assert(v@.to_set().contains(uuid) == v@.contains(uuid));
    }
    let n = v.len();
    let mut i: usize = 0;
    while i < n
        invariant
            i <= n,
            n == v@.len(),
            forall|k: int| 0 <= k < i ==> v@[k] != uuid,
        decreases n - i,
    {
        if v[i] == uuid {
            return true;
        }
        i = i + 1;
    }
    false
}

proof fn lemma_to_set_push(s: Seq<u128>, x: u128)
    ensures
        s.push(x).to_set() == s.to_set().insert(x),
{
    assert forall|y: u128| s.push(x).to_set().contains(y) implies s.to_set().insert(x).contains(
        y,
    ) by {
        let k = choose|k: int| 0 <= k < s.push(x).len() && s.push(x)[k] == y;
        if k < s.len() {
            assert(s[k] == y);
        }
    }
    assert forall|y: u128| s.to_set().insert(x).contains(y) implies s.push(x).to_set().contains(
        y,
    ) by {
        if y == x {
            assert(s.push(x)[s.len() as int] == y);
        } else {
            let k = choose|k: int| 0 <= k < s.len() && s[k] == y;
            assert(s.push(x)[k] == y);
        }
    }
    assert(s.push(x).to_set() =~= s.to_set().insert(x));
}

/// Banning an already banned account changes nothing: the hub's ban handler
/// takes the banned set to `insert(uuid)`, so a second `BanUser` for the same
/// account succeeds again and leaves the set as it was.
pub proof fn lemma_ban_idempotent(banned: Set<u128>, uuid: u128)
    ensures
        banned.insert(uuid).insert(uuid) == banned.insert(uuid),
        banned.insert(uuid).contains(uuid),
{
    assert(banned.insert(uuid).insert(uuid) =~= banned.insert(uuid));
}

/// `UnbanUser` after `BanUser` of a previously unbanned account restores the
/// banned set: the hub's handlers take it to `insert(uuid)` and then to
/// `remove(uuid)`.
pub proof fn lemma_unban_restores(banned: Set<u128>, uuid: u128)
    requires
        !banned.contains(uuid),
    ensures
        banned.insert(uuid).remove(uuid) == banned,
{
    assert(banned.insert(uuid).remove(uuid) =~= banned);
}

/// Removing the only occurrence of `uuid` from a duplicate-free sequence
/// removes exactly `uuid` from the set of its elements, and keeps the rest
/// duplicate-free.
proof fn lemma_remove_unique(s: Seq<u128>, i: int, uuid: u128)
    requires
        0 <= i < s.len(),
        s[i] == uuid,
        forall|p: int, q: int| 0 <= p < q < s.len() ==> s[p] != s[q],
    ensures
        s.remove(i).to_set() == s.to_set().remove(uuid),
        forall|p: int, q: int| 0 <= p < q < s.remove(i).len() ==> s.remove(i)[p] != s.remove(i)[q],
{
    let t = s.remove(i);
    assert forall|x: u128| t.to_set().contains(x) implies s.to_set().remove(uuid).contains(
        x,
    ) by {
        let k = choose|k: int| 0 <= k < t.len() && t[k] == x;
        if k < i {
            assert(s[k] == x);
        } else {
            assert(s[k + 1] == x);
        }
    }
    assert forall|x: u128| s.to_set().remove(uuid).contains(x) implies t.to_set().contains(
        x,
    ) by {
        let k = choose|k: int| 0 <= k < s.len() && s[k] == x;
        if k < i {
            assert(t[k] == x);
        } else {
            assert(k != i);
            assert(t[k - 1] == x);
        }
    }
    assert(t.to_set() =~= s.to_set().remove(uuid));
}

} // verus!
