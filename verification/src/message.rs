//! Admission control for outbound messages: a token bucket per user session,
//! and validation of message content.

use crate::error::ClientError;
use vstd::prelude::*;

verus! {

/// Message policy: maximum burst, time to accrue one token, and the longest
/// accepted content, counted in characters.
#[derive(Clone, Copy, PartialEq, Eq, Debug, Structural)]
pub struct MessageConfig {
    /// Maximum number of admissions in one burst.
    pub capacity: u32,
    /// Milliseconds to accrue one token.
    pub regen_time_ms: u64,
    /// Longest accepted message content, in characters.
    pub max_length: usize,
}

/// A token bucket. Token balances are rationals with denominator
/// `regen_time_ms`, so the balance is kept exactly as `credit_ms`
/// (milliseconds of accrued time): one token is `regen_time_ms` credit, and
/// the bucket is full at `capacity * regen_time_ms` credit.
#[derive(Clone, Copy, PartialEq, Eq, Debug, Structural)]
pub struct RateLimiter {
    pub config: MessageConfig,
    pub credit_ms: u128,
    pub last_update_ms: u64,
}

impl RateLimiter {
    /// Credit of a full bucket.
    pub open spec fn cap_credit(self) -> int {
        self.config.capacity * self.config.regen_time_ms
    }

    pub open spec fn wf(self) -> bool {
        self.credit_ms <= self.cap_credit()
    }

    /// Time elapsed since the last check; a clock that moved backwards counts
    /// as no elapsed time.
    pub open spec fn elapsed(self, now_ms: u64) -> int {
        if now_ms >= self.last_update_ms {
            now_ms - self.last_update_ms
        } else {
            0
        }
    }

    /// The credit after topping the bucket up at `now_ms`, capped at a full
    /// bucket.
    pub open spec fn refreshed(self, now_ms: u64) -> int {
        if self.credit_ms + self.elapsed(now_ms) >= self.cap_credit() {
            self.cap_credit()
        } else {
            self.credit_ms + self.elapsed(now_ms)
        }
    }

    /// The state and verdict of one admission attempt: top the bucket up,
    /// admit if at least one whole token is available, and stamp the check
    /// time either way.
    pub open spec fn check_spec(self, now_ms: u64) -> (RateLimiter, bool) {
        let refreshed = self.refreshed(now_ms);
        if refreshed >= self.config.regen_time_ms {
            (
                RateLimiter {
                    credit_ms: (refreshed - self.config.regen_time_ms) as u128,
                    last_update_ms: now_ms,
                    ..self
                },
                true,
            )
        } else {
            (RateLimiter { credit_ms: refreshed as u128, last_update_ms: now_ms, ..self }, false)
        }
    }

    /// The state of a fresh limiter: a full bucket, so a burst of `capacity`
    /// messages is admitted at once.
    pub open spec fn fresh_spec(config: MessageConfig, now_ms: u64) -> RateLimiter {
        RateLimiter {
            config,
            credit_ms: (config.capacity * config.regen_time_ms) as u128,
            last_update_ms: now_ms,
        }
    }

    /// A fresh limiter starts with a full bucket, so a burst of `capacity`
    /// messages is admitted at once.
    pub fn new(config: MessageConfig, now_ms: u64) -> (r: RateLimiter)
        ensures
            r == RateLimiter::fresh_spec(config, now_ms),
            r.wf(),
            r.credit_ms == r.cap_credit(),
    {
        proof {
            vstd::arithmetic::mul::lemma_mul_upper_bound(
                config.capacity as int,
                0xffff_ffff,
                config.regen_time_ms as int,
                0xffff_ffff_ffff_ffff,
            );
        }
        let credit: u128 = (config.capacity as u128) * (config.regen_time_ms as u128);
        RateLimiter { config, credit_ms: credit, last_update_ms: now_ms }
    }

    /// One admission attempt at `now_ms`.
    pub fn check(&mut self, now_ms: u64) -> (admitted: bool)
        requires
            old(self).wf(),
        ensures
            final(self).wf(),
            (*final(self), admitted) == old(self).check_spec(now_ms),
    {
        proof {
            vstd::arithmetic::mul::lemma_mul_upper_bound(
                self.config.capacity as int,
                0xffff_ffff,
                self.config.regen_time_ms as int,
                0xffff_ffff_ffff_ffff,
            );
        }
        let cap: u128 = (self.config.capacity as u128) * (self.config.regen_time_ms as u128);
        let elapsed: u64 = if now_ms >= self.last_update_ms {
            now_ms - self.last_update_ms
        } else {
            0
        };
        let mut credit: u128 = self.credit_ms + elapsed as u128;
        if credit > cap {
            credit = cap;
        }
        self.last_update_ms = now_ms;
        if credit >= self.config.regen_time_ms as u128 {
            self.credit_ms = credit - self.config.regen_time_ms as u128;
            true
        } else {
            self.credit_ms = credit;
            false
        }
    }
}

/// The limiter after `k` admission attempts in a row at the one instant
/// `now_ms`.
pub open spec fn drain(l: RateLimiter, now_ms: u64, k: nat) -> RateLimiter
    decreases k,
{
    if k == 0 {
        l
    } else {
        drain(l, now_ms, (k - 1) as nat).check_spec(now_ms).0
    }
}

/// From a full bucket, `capacity` back-to-back admissions at one instant all
/// succeed, and each consumes exactly one token.
pub proof fn lemma_limiter_burst(l: RateLimiter, now_ms: u64, k: nat)
    requires
        l.wf(),
        l.credit_ms == l.cap_credit(),
        l.last_update_ms == now_ms,
        k <= l.config.capacity,
    ensures
        drain(l, now_ms, k).config == l.config,
        drain(l, now_ms, k).last_update_ms == now_ms,
        drain(l, now_ms, k).credit_ms == l.cap_credit() - k * l.config.regen_time_ms,
        k < l.config.capacity ==> drain(l, now_ms, k).check_spec(now_ms).1,
    decreases k,
{
    let cap = l.config.capacity as int;
    let regen = l.config.regen_time_ms as int;
    if k == 0 {
        assert(k * regen == 0) by (nonlinear_arith)
            requires
                k == 0,
        ;
        if k < cap {
            assert((cap - 1) * regen >= 0) by (nonlinear_arith)
                requires
                    cap >= 1,
                    regen >= 0,
            ;
            assert(cap * regen - regen == (cap - 1) * regen) by (nonlinear_arith);
            assert(drain(l, now_ms, k).check_spec(now_ms).1);
        }
    } else {
        lemma_limiter_burst(l, now_ms, (k - 1) as nat);
        let prev = drain(l, now_ms, (k - 1) as nat);
        assert((cap - (k - 1) - 1) * regen >= 0) by (nonlinear_arith)
            requires
                cap >= k,
                regen >= 0,
        ;
        assert((k - 1) * regen >= 0) by (nonlinear_arith)
            requires
                k >= 1,
                regen >= 0,
        ;
        assert(cap * regen - (k - 1) * regen - regen == (cap - (k - 1) - 1) * regen)
            by (nonlinear_arith);
        assert(k * regen == (k - 1) * regen + regen) by (nonlinear_arith);
        assert(prev.credit_ms >= regen);
        assert(prev.check_spec(now_ms).1);
        assert(drain(l, now_ms, k).credit_ms == prev.credit_ms - regen);
        if k < cap {
            assert((cap - k - 1) * regen >= 0) by (nonlinear_arith)
                requires
                    cap >= k + 1,
                    regen >= 0,
            ;
            assert(cap * regen - k * regen - regen == (cap - k - 1) * regen) by (nonlinear_arith);
        }
    }
}

/// From a full bucket, the attempt right after a burst of `capacity` at the
/// same instant is denied.
pub proof fn lemma_limiter_exhausted(l: RateLimiter, now_ms: u64)
    requires
        l.wf(),
        l.credit_ms == l.cap_credit(),
        l.last_update_ms == now_ms,
        l.config.regen_time_ms > 0,
    ensures
        !drain(l, now_ms, l.config.capacity as nat).check_spec(now_ms).1,
{
    let cap = l.config.capacity as int;
    let regen = l.config.regen_time_ms as int;
    lemma_limiter_burst(l, now_ms, l.config.capacity as nat);
    assert(drain(l, now_ms, l.config.capacity as nat).credit_ms == 0);
}

/// Once the bucket is below one token, waiting exactly `regen_time_ms`
/// grants exactly one more admission: the next attempt at that instant
/// succeeds, and the one after it is denied again.
pub proof fn lemma_regen_grants_one(l: RateLimiter, now2: u64)
    requires
        l.wf(),
        l.credit_ms < l.config.regen_time_ms,
        l.config.capacity >= 1,
        now2 >= l.last_update_ms,
        now2 - l.last_update_ms == l.config.regen_time_ms,
    ensures
        l.check_spec(now2).1,
        !l.check_spec(now2).0.check_spec(now2).1,
{
    let cap = l.config.capacity as int;
    let regen = l.config.regen_time_ms as int;
    assert((cap - 1) * regen >= 0) by (nonlinear_arith)
        requires
            cap >= 1,
            regen >= 0,
    ;
    assert(cap * regen - regen == (cap - 1) * regen) by (nonlinear_arith);
    assert(l.refreshed(now2) >= regen);
    let after = l.check_spec(now2).0;
    assert(after.credit_ms < regen);
    assert(after.last_update_ms == now2);
    assert(after.refreshed(now2) == after.credit_ms);
}

/// The allowed-character policy: every character from ordinary space upwards
/// is accepted, except DEL (0x7f) and the C1 control block (0x80..=0x9f).
/// In particular every ASCII control byte other than 0x20, including tab and
/// newline, is rejected.
pub open spec fn allowed_char(c: char) -> bool {
    &&& c as u32 >= 0x20
    &&& c as u32 != 0x7f
    &&& !(0x80 <= c as u32 && c as u32 <= 0x9f)
}

/// The first character of the content that the policy rejects, if any.
pub open spec fn first_invalid_char(content: Seq<char>) -> Option<char>
    decreases content.len(),
{
    if content.len() == 0 {
        None
    } else if !allowed_char(content[0]) {
        Some(content[0])
    } else {
        first_invalid_char(content.drop_first())
    }
}

/// The verdict on outgoing message content: empty content, content longer
/// than `max_length` characters, and content with a disallowed character are
/// rejected, in that order of precedence.
pub open spec fn validate_spec(content: Seq<char>, max_length: nat) -> Option<ClientError> {
    if content.len() == 0 {
        Some(ClientError::EmptyMessage)
    } else if content.len() > max_length {
        Some(ClientError::MessageTooLong)
    } else {
        match first_invalid_char(content) {
            Some(c) => Some(ClientError::InvalidCharacter(c)),
            None => None,
        }
    }
}

pub fn allowed_char_exec(c: char) -> (r: bool)
    ensures
        r == allowed_char(c),
{
    let v = c as u32;
    v >= 0x20 && v != 0x7f && !(0x80 <= v && v <= 0x9f)
}

proof fn lemma_first_invalid_skip(s: Seq<char>, i: int)
    requires
        0 <= i <= s.len(),
        forall|k: int| 0 <= k < i ==> allowed_char(s[k]),
    ensures
        first_invalid_char(s) == first_invalid_char(s.skip(i)),
    decreases i,
{
    if i > 0 {
        assert(s.skip(0) =~= s);
        assert(s.drop_first() =~= s.skip(1));
        assert(s.skip(1).skip(i - 1) =~= s.skip(i));
        lemma_first_invalid_skip(s.skip(1), i - 1);
    } else {
        assert(s.skip(0) =~= s);
    }
}

/// The characters of a string as a vector.
pub fn chars_of(content: &str) -> (r: Vec<char>)
    ensures
        r@ == content@,
{
    let mut chars: Vec<char> = Vec::new();
    for c in it: content.chars()
        invariant
            it.seq() == content@,
            chars@ == it.seq().take(it.index() as int),
    {
        chars.push(c);
        proof {
            assert(chars@ =~= it.seq().take(it.index() + 1));
        }
    }
    proof {
        assert(content@.take(content@.len() as int) =~= content@);
    }
    chars
}

/// Checks message content against the policy.
pub fn validate_message(content: &String, max_length: usize) -> (r: Option<ClientError>)
    ensures
        r == validate_spec(content@, max_length as nat),
{
    let chars = chars_of(content.as_str());
    let n = chars.len();
    if n == 0 {
        return Some(ClientError::EmptyMessage);
    }
    if n > max_length {
        return Some(ClientError::MessageTooLong);
    }
    let mut i: usize = 0;
    while i < n
        invariant
            i <= n,
            n == chars.len(),
            0 < n <= max_length,
            chars@ == content@,
            forall|k: int| 0 <= k < i ==> allowed_char(content@[k]),
        decreases n - i,
    {
        if !allowed_char_exec(chars[i]) {
            proof {
                lemma_first_invalid_skip(content@, i as int);
                assert(!allowed_char(content@[i as int]));
                assert(content@.skip(i as int)[0] == content@[i as int]);
                assert(first_invalid_char(content@.skip(i as int)) == Some(
                    content@[i as int],
                ));
            }
            return Some(ClientError::InvalidCharacter(chars[i]));
        }
        i = i + 1;
    }
    proof {
        lemma_first_invalid_skip(content@, n as int);
        assert(content@.skip(n as int) =~= Seq::<char>::empty());
    }
    None
}

} // verus!
