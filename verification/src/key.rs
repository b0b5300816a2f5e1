//! Opaque keys used internally to identify nodes and indexes.

use crate::bytes::{
    be_bytes, be_value, lemma_be_bytes_len, lemma_be_value_bound, lemma_pow256_values,
};
use crate::codec::push_be;
use crate::error::SdbError;
use crate::text::{push_char, push_str, uuid_hyphenated, uuid_text};
use vstd::prelude::*;

verus! {

/// Opaque, unique primary key identifying a stored node.
///
/// A fresh key is 128 random bits drawn from a fast generator (see
/// [`generate`](Self::generate)): unique, fixed 16-byte size, and cheap to
/// mint. Keys are compared for equality and point-looked-up, and their 16-byte
/// form is big-endian, so byte order is value order.
#[derive(Clone, Copy, PartialEq, Eq, PartialOrd, Ord, Hash, Debug)]
pub struct Skey(u128);

impl View for Skey {
    type V = u128;

    closed spec fn view(&self) -> u128 {
        self.0
    }
}

/// The splitmix64 generator state a run of [`Skey::generate`] calls draws from.
pub struct KeyRng {
    state: u64,
}

impl View for KeyRng {
    type V = u64;

    closed spec fn view(&self) -> u64 {
        self.state
    }
}

/// splitmix64's state increment (the golden-ratio constant).
pub const SPLITMIX_GAMMA: u64 = 0x9E37_79B9_7F4A_7C15;

pub open spec fn wrap_add(a: u64, b: u64) -> u64 {
    ((a as nat + b as nat) % 0x1_0000_0000_0000_0000) as u64
}

pub open spec fn wrap_mul(a: u64, b: u64) -> u64 {
    ((a as nat * b as nat) % 0x1_0000_0000_0000_0000) as u64
}

/// splitmix64's output function applied to an advanced state.
pub open spec fn splitmix_mix(next: u64) -> u64 {
    let z1 = wrap_mul(next ^ (next >> 30u64), 0xBF58_476D_1CE4_E5B9);
    let z2 = wrap_mul(z1 ^ (z1 >> 27u64), 0x94D0_49BB_1331_11EB);
    z2 ^ (z2 >> 31u64)
}

/// One 64-bit splitmix64 draw, advancing `state`.
pub fn splitmix64(state: &mut u64) -> (out: u64)
    ensures
        *final(state) == wrap_add(*old(state), SPLITMIX_GAMMA),
        out == splitmix_mix(*final(state)),
{
    let next = state.wrapping_add(SPLITMIX_GAMMA);
    *state = next;
    let mut z = next;
    z = (z ^ (z >> 30u64)).wrapping_mul(0xBF58_476D_1CE4_E5B9);
    z = (z ^ (z >> 27u64)).wrapping_mul(0x94D0_49BB_1331_11EB);
    z ^ (z >> 31u64)
}

/// The generator seed mixed from a 128-bit draw: its halves xor-ed, with the
/// low bit forced on so the state is never zero.
pub open spec fn seed_of(bits: u128) -> u64 {
    ((bits % 0x1_0000_0000_0000_0000) as u64 ^ (bits / 0x1_0000_0000_0000_0000) as u64) | 1u64
}

/// `uuid::Uuid::now_v7().as_u128()`: a fresh time-ordered UUID, whose value
/// depends on the clock and on OS entropy.
#[verifier::external_body]
fn now_v7_bits() -> u128 {
    uuid::Uuid::now_v7().as_u128()
}

/// A one-time strong seed: a single UUID v7 pulls OS entropy (and the current
/// time) once; every later key comes from the cheap generator.
fn seed() -> (s: u64)
    ensures
        s & 1u64 == 1u64,
{
    seed_from(now_v7_bits())
}

/// Mixes a 128-bit draw into a generator seed: the halves xor-ed, the low bit
/// forced on so the state is never zero.
pub fn seed_from(bits: u128) -> (s: u64)
    ensures
        s == seed_of(bits),
        s & 1u64 == 1u64,
{
    let lo = (bits % 0x1_0000_0000_0000_0000) as u64;
    let hi = (bits / 0x1_0000_0000_0000_0000) as u64;
    let mixed = lo ^ hi;
    assert((mixed | 1u64) & 1u64 == 1u64) by (bit_vector);
    mixed | 1
}

impl KeyRng {
    /// A generator seeded from OS entropy and the clock.
    pub fn new() -> (r: KeyRng)
        ensures
            r@ & 1u64 == 1u64,
    {
        KeyRng { state: seed() }
    }

    /// A generator starting from a given state.
    pub fn from_state(state: u64) -> (r: KeyRng)
        ensures
            r@ == state,
    {
        KeyRng { state }
    }
}

/// The key made of two 64-bit draws, `hi` then `lo`.
pub open spec fn key_of_draws(hi: u64, lo: u64) -> u128 {
    (hi as nat * 0x1_0000_0000_0000_0000 + lo as nat) as u128
}

/// A 16-byte string spelling a key.
pub open spec fn key_bytes(v: u128) -> Seq<u8> {
    be_bytes(v as nat, 16)
}

impl Skey {
    /// The fixed primary key of a table's root node; path resolution walks
    /// from here. It is the all-zero key, distinct from any generated one in
    /// practice.
    pub fn root() -> (k: Skey)
        ensures
            k@ == 0,
    {
        Skey(0)
    }

    /// The key's 128-bit value.
    pub fn as_u128(self) -> (v: u128)
        ensures
            v == self@,
    {
        self.0
    }

    /// The key with the given 128-bit value.
    pub fn from_u128(v: u128) -> (k: Skey)
        ensures
            k@ == v,
    {
        Skey(v)
    }

    /// Generates a fresh key: two successive splitmix64 draws, high half first.
    pub fn generate(rng: &mut KeyRng) -> (k: Skey)
        ensures
            ({
                let s1 = wrap_add(old(rng)@, SPLITMIX_GAMMA);
                let s2 = wrap_add(s1, SPLITMIX_GAMMA);
                &&& final(rng)@ == s2
                &&& k@ == key_of_draws(splitmix_mix(s1), splitmix_mix(s2))
            }),
    {
        let hi = splitmix64(&mut rng.state);
        let lo = splitmix64(&mut rng.state);
        Skey((hi as u128) * 0x1_0000_0000_0000_0000 + lo as u128)
    }

    /// The raw 16-byte representation (big-endian, order-preserving).
    pub fn into_bytes(self) -> (b: [u8; 16])
        ensures
            b@ == key_bytes(self@),
    {
        let mut v: Vec<u8> = Vec::new();
        push_be(&mut v, self.0, 16);
        proof {
            lemma_be_bytes_len(self.0 as nat, 16);
        }
        let mut out = [0u8; 16];
        let mut i: usize = 0;
        while i < 16
            invariant
                v@ == key_bytes(self@),
                v@.len() == 16,
                i <= 16,
                forall|j: int| 0 <= j < i ==> out@[j] == v@[j],
                out@.len() == 16,
            decreases 16 - i,
        {
            out[i] = v[i];
            i = i + 1;
        }
        assert(out@ =~= v@);
        out
    }

    /// Rebuilds a key from its raw 16-byte representation.
    pub fn from_bytes(bytes: [u8; 16]) -> (k: Skey)
        ensures
            k@ == be_value(bytes@),
    {
        Self::from_slice16(&bytes)
    }

    /// Rebuilds a key from a slice of exactly 16 bytes.
    fn from_slice16(bytes: &[u8]) -> (k: Skey)
        requires
            bytes@.len() == 16,
        ensures
            k@ == be_value(bytes@),
    {
        let mut v: u128 = 0;
        let mut i: usize = 0;
        while i < 16
            invariant
                bytes@.len() == 16,
                i <= 16,
                v as nat == be_value(bytes@.take(i as int)),
            decreases 16 - i,
        {
            proof {
                lemma_be_value_bound(bytes@.take(i as int));
                crate::codec::lemma_pow256_le(i as nat, 15);
                lemma_pow256_values();
                assert(bytes@.take(i + 1).drop_last() =~= bytes@.take(i as int));
            }
            v = v * 256 + bytes[i] as u128;
            i = i + 1;
        }
        assert(bytes@.take(16) =~= bytes@);
        Skey(v)
    }

    /// Rebuilds a key from a variable-length byte slice, returning
    /// [`SdbError::BadKey`] if the slice is not exactly 16 bytes long.
    pub fn try_from_bytes(bytes: &[u8]) -> (r: Result<Skey, SdbError>)
        ensures
            match r {
                Ok(k) => bytes@.len() == 16 && k@ == be_value(bytes@),
                Err(e) => bytes@.len() != 16 && e is BadKey,
            },
    {
        if bytes.len() != 16 {
            return Err(SdbError::BadKey("bytes with length different from 16".to_string()));
        }
        Ok(Self::from_slice16(bytes))
    }

    /// Parses a key from its UUID text (hyphenated, simple, braced or URN).
    pub fn parse(s: &str) -> (r: Result<Skey, SdbError>)
        ensures
            match r {
                Ok(k) => uuid_parse(s@) == Some(k@),
                Err(e) => uuid_parse(s@) is None && e is BadKey,
            },
    {
        match parse_uuid(s) {
            Ok(v) => Ok(Skey(v)),
            Err(msg) => Err(SdbError::BadKey(msg)),
        }
    }

    /// The key's display form, `key:` followed by its hyphenated UUID.
    pub fn display_text(&self) -> (s: String)
        ensures
            s@ == seq!['k', 'e', 'y', ':'] + uuid_text(self@),
    {
        let mut out = String::new();
        push_str(&mut out, "key:");
        let text = uuid_hyphenated(self.0);
        push_str(&mut out, text.as_str());
        proof {
            reveal_strlit("key:");
        }
        assert(out@ =~= seq!['k', 'e', 'y', ':'] + uuid_text(self@));
        out
    }
}

/// The value `uuid::Uuid::parse_str` reads from a text, if it accepts it.
pub uninterp spec fn uuid_parse(text: Seq<char>) -> Option<u128>;

/// `uuid::Uuid::parse_str(s)`: the UUID's value, or the parser's message.
#[verifier::external_body]
fn parse_uuid(s: &str) -> (r: Result<u128, String>)
    ensures
        match r {
            Ok(v) => uuid_parse(s@) == Some(v),
            Err(_) => uuid_parse(s@) is None,
        },
{
    match uuid::Uuid::parse_str(s) {
        Ok(u) => Ok(u.as_u128()),
        Err(err) => Err(err.to_string()),
    }
}

/// The key's 16 bytes and the key read back from them agree.
pub proof fn lemma_key_bytes_roundtrip(v: u128)
    ensures
        key_bytes(v).len() == 16,
        be_value(key_bytes(v)) == v,
{
    lemma_pow256_values();
    lemma_be_bytes_len(v as nat, 16);
    crate::bytes::lemma_be_value_of_bytes(v as nat, 16);
}

} // verus!
