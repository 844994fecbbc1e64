//! Identity data and the session-hash encoder used by the Mojang-style
//! two-phase handshake.

use vstd::prelude::*;

verus! {

/// Authoritative identity of an authenticated session.
#[derive(Clone, PartialEq, Eq, Debug)]
pub struct UserInfo {
    pub name: String,
    /// Account UUID, held as its 128-bit value.
    pub uuid: u128,
}

/// What the external session service answers on success: the account id as a
/// hex string (with or without dashes) and the display name.
#[derive(Clone, PartialEq, Eq, Debug)]
pub struct AuthInfo {
    pub id: String,
    pub name: String,
}

/// What the external session-service lookup for the second Mojang phase came
/// to: the verified account UUID of an understood 200 answer, a service or
/// transport failure, or an answer that could not be understood (an
/// undecodable body, or an id that parses as no UUID). The last is an
/// infrastructure fault, answered as `Internal`.
#[derive(Clone, Copy, PartialEq, Eq, Debug, Structural)]
pub enum SessionAnswer {
    Verified(u128),
    Failed,
    Malformed,
}

/// Payload of a locally-issued signed token: expiry (seconds since epoch) and
/// the identity it certifies.
#[derive(Clone, Debug)]
pub struct Claims {
    pub exp: u64,
    pub user: UserInfo,
}

/// The lowercase hex digit for a nibble value.
pub open spec fn hex_char(n: u8) -> char {
    if n == 0 { '0' } else if n == 1 { '1' } else if n == 2 { '2' } else if n == 3 { '3' }
    else if n == 4 { '4' } else if n == 5 { '5' } else if n == 6 { '6' } else if n == 7 { '7' }
    else if n == 8 { '8' } else if n == 9 { '9' } else if n == 10 { 'a' } else if n == 11 { 'b' }
    else if n == 12 { 'c' } else if n == 13 { 'd' } else if n == 14 { 'e' } else { 'f' }
}

/// The nibbles of a byte string, most significant first.
pub open spec fn nibbles_of(bytes: Seq<u8>) -> Seq<u8> {
    Seq::new(bytes.len() * 2, |i: int| if i % 2 == 0 { bytes[i / 2] / 16 } else { bytes[i / 2] % 16 })
}

/// Drops every leading zero of a nibble string.
pub open spec fn trim_leading_zeros(s: Seq<u8>) -> Seq<u8>
    decreases s.len(),
{
    if s.len() == 0 {
        s
    } else if s[0] == 0 {
        trim_leading_zeros(s.drop_first())
    } else {
        s
    }
}

/// The session-hash encoding of a byte string: lowercase hex with leading zero
/// nibbles suppressed; all-zero input encodes as "0".
pub open spec fn trimmed_hex(bytes: Seq<u8>) -> Seq<char> {
    let t = trim_leading_zeros(nibbles_of(bytes)).map_values(|n: u8| hex_char(n));
    if t.len() == 0 {
        seq!['0']
    } else {
        t
    }
}

proof fn lemma_trim_push(s: Seq<u8>, x: u8)
    ensures
        trim_leading_zeros(s.push(x)) =~= if trim_leading_zeros(s).len() == 0 {
            if x == 0 { Seq::<u8>::empty() } else { seq![x] }
        } else {
            trim_leading_zeros(s).push(x)
        },
    decreases s.len(),
{
    if s.len() == 0 {
        assert(s.push(x).drop_first() =~= s);
    } else {
        assert(s.push(x)[0] == s[0]);
        if s[0] == 0 {
            assert(s.push(x).drop_first() =~= s.drop_first().push(x));
            lemma_trim_push(s.drop_first(), x);
        }
    }
}

proof fn lemma_trim_head(s: Seq<u8>)
    ensures
        trim_leading_zeros(s).len() > 0 ==> trim_leading_zeros(s)[0] != 0,
    decreases s.len(),
{
    if s.len() > 0 && s[0] == 0 {
        lemma_trim_head(s.drop_first());
    }
}

/// Encodes 20 bytes as the session hash: lowercase hex, leading zero nibbles
/// trimmed, "0" for the all-zero input.
pub fn encode_sha1_bytes(bytes: &[u8; 20]) -> (r: String)
    ensures
        r@ == trimmed_hex(bytes@),
{
    let mut v: Vec<u8> = Vec::new();
    let mut i: usize = 0;
    while i < 20
        invariant
            i <= 20,
            v@ == bytes@.take(i as int),
        decreases 20 - i,
    {
        v.push(bytes[i]);
        proof {
            assert(v@ =~= bytes@.take(i + 1));
        }
        i = i + 1;
    }
    proof {
        assert(bytes@.take(20) =~= bytes@);
    }
    hex_trimmed(&v)
}

/// Encodes any byte string the same way: lowercase hex, leading zero nibbles
/// trimmed, "0" when every nibble is zero.
pub fn hex_trimmed(bytes: &Vec<u8>) -> (r: String)
    ensures
        r@ == trimmed_hex(bytes@),
{
    let n = bytes.len();
    let ghost nibs = nibbles_of(bytes@);
    let mut buf = String::new();
    let mut skipped_zeros = false;
    let mut i: usize = 0;
    while i < n
        invariant
            i <= n,
            n == bytes@.len(),
            nibs == nibbles_of(bytes@),
            nibs.len() == 2 * n,
            skipped_zeros <==> trim_leading_zeros(nibs.take(2 * i as int)).len() > 0,
            buf@ =~= trim_leading_zeros(nibs.take(2 * i as int)).map_values(
                |n: u8| hex_char(n),
            ),
        decreases n - i,
    {
        let byte = bytes[i];
        let ghost k = 2 * i as int;
        assert(nibs[k] == byte / 16 && nibs[k + 1] == byte % 16);

        let left = byte >> 4u8;
        assert(byte >> 4u8 == byte / 16) by (bit_vector);
        proof {
            assert(nibs.take(k + 1) =~= nibs.take(k).push(nibs[k]));
            lemma_trim_push(nibs.take(k), nibs[k]);
        }
        if left != 0 {
            skipped_zeros = true;
        }
        if skipped_zeros {
            buf.push(hex_char_exec(left));
        }
        proof {
            assert(buf@ =~= trim_leading_zeros(nibs.take(k + 1)).map_values(
                |n: u8| hex_char(n),
            ));
        }

        let right = byte & 0b1111u8;
        assert(byte & 0b1111u8 == byte % 16) by (bit_vector);
        proof {
            assert(nibs.take(k + 2) =~= nibs.take(k + 1).push(nibs[k + 1]));
            lemma_trim_push(nibs.take(k + 1), nibs[k + 1]);
        }
        if right != 0 {
            skipped_zeros = true;
        }
        if skipped_zeros {
            buf.push(hex_char_exec(right));
        }
        proof {
            assert(buf@ =~= trim_leading_zeros(nibs.take(k + 2)).map_values(
                |n: u8| hex_char(n),
            ));
        }
        i = i + 1;
    }
    proof {
        assert(nibs.take(2 * n as int) =~= nibs);
    }
    if !skipped_zeros {
        buf.push('0');
    }
    proof {
        assert(buf@ =~= trimmed_hex(bytes@));
    }
    buf
}

/// The lowercase hex digit for a nibble value.
pub fn hex_char_exec(n: u8) -> (c: char)
    requires
        n < 16,
    ensures
        c == hex_char(n),
{
    if n == 0 { '0' } else if n == 1 { '1' } else if n == 2 { '2' } else if n == 3 { '3' }
    else if n == 4 { '4' } else if n == 5 { '5' } else if n == 6 { '6' } else if n == 7 { '7' }
    else if n == 8 { '8' } else if n == 9 { '9' } else if n == 10 { 'a' } else if n == 11 { 'b' }
    else if n == 12 { 'c' } else if n == 13 { 'd' } else if n == 14 { 'e' } else { 'f' }
}

/// The session-hash encoding never begins with '0' unless it is exactly "0";
/// and, being defined by a spec function of the bytes alone, the same input
/// always yields the same string.
pub proof fn lemma_trimmed_hex_no_leading_zero(bytes: Seq<u8>)
    ensures
        trimmed_hex(bytes).len() > 0,
        trimmed_hex(bytes)[0] == '0' ==> trimmed_hex(bytes) =~= seq!['0'],
{
    lemma_trim_head(nibbles_of(bytes));
    let t = trim_leading_zeros(nibbles_of(bytes));
    if t.len() > 0 {
        assert(trimmed_hex(bytes)[0] == hex_char(t[0]));
        assert(t[0] != 0 && t[0] < 16 ==> hex_char(t[0]) != '0');
    }
}

} // verus!
