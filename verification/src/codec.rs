//! Low-level byte (de)serialization helpers shared by the internal codecs.
//!
//! Multi-byte integers are written big-endian so that fixed-width encodings are
//! directly byte-comparable. Variable-length byte runs are length-prefixed so
//! that the encoders are self-delimiting.

use crate::bytes::{from_twos, int_fits, twos, be_bytes, be_value, lemma_be_value_bound, lemma_pow256_positive, lemma_pow256_values, pow256};
use crate::error::{corrupt, SdbError, SdbResult};
use vstd::prelude::*;

verus! {

/// Appends the `n` low-order bytes of `v`, most significant first.
pub fn push_be(buf: &mut Vec<u8>, v: u128, n: usize)
    ensures
        final(buf)@ == old(buf)@ + be_bytes(v as nat, n as nat),
    decreases n,
{
    if n > 0 {
        push_be(buf, v / 256, n - 1);
        buf.push((v % 256) as u8);
        assert(final(buf)@ =~= old(buf)@ + be_bytes(v as nat, n as nat));
    } else {
        assert(final(buf)@ =~= old(buf)@ + be_bytes(v as nat, n as nat));
    }
}

/// `256^n - 1`, for the widths the codecs use.
pub fn width_mask(n: usize) -> (m: u128)
    requires
        n == 1 || n == 2 || n == 4 || n == 8 || n == 16,
    ensures
        m as nat == pow256(n as nat) - 1,
{
    proof {
        lemma_pow256_values();
    }
    if n == 1 {
        0xff
    } else if n == 2 {
        0xffff
    } else if n == 4 {
        0xffff_ffff
    } else if n == 8 {
        0xffff_ffff_ffff_ffff
    } else {
        0xffff_ffff_ffff_ffff_ffff_ffff_ffff_ffff
    }
}

/// Appends `v` as an `n`-byte big-endian two's-complement integer.
pub fn put_int(buf: &mut Vec<u8>, v: i128, n: usize)
    requires
        n == 1 || n == 2 || n == 4 || n == 8 || n == 16,
        int_fits(v as int, n as nat),
    ensures
        final(buf)@ == old(buf)@ + be_bytes(twos(v as int, n as nat), n as nat),
{
    let u: u128 = if v >= 0 {
        v as u128
    } else {
        let m = width_mask(n);
        m - ((-(v + 1)) as u128)
    };
    push_be(buf, u, n);
}

/// Appends every byte of `bytes`.
pub fn append_bytes(buf: &mut Vec<u8>, bytes: &[u8])
    ensures
        final(buf)@ == old(buf)@ + bytes@,
{
    let mut i: usize = 0;
    while i < bytes.len()
        invariant
            i <= bytes@.len(),
            buf@ == old(buf)@ + bytes@.take(i as int),
        decreases bytes@.len() - i,
    {
        buf.push(bytes[i]);
        assert(bytes@.take(i + 1) =~= bytes@.take(i as int).push(bytes@[i as int]));
        i = i + 1;
    }
    assert(bytes@.take(i as int) =~= bytes@);
}

/// Appends `v` as 4 big-endian bytes.
pub fn put_u32(buf: &mut Vec<u8>, v: u32)
    ensures
        final(buf)@ == old(buf)@ + be_bytes(v as nat, 4),
{
    push_be(buf, v as u128, 4);
}

/// Appends `v` as 8 big-endian bytes.
pub fn put_u64(buf: &mut Vec<u8>, v: u64)
    ensures
        final(buf)@ == old(buf)@ + be_bytes(v as nat, 8),
{
    push_be(buf, v as u128, 8);
}

/// The 4-byte length prefix [`put_bytes`] writes before a run of `len` bytes:
/// the length as a `u32` (truncated, as the `as u32` cast does).
pub open spec fn length_prefix(len: nat) -> Seq<u8> {
    be_bytes(len % 0x1_0000_0000, 4)
}

/// Writes a length-prefixed (u32 big-endian) byte run.
pub fn put_bytes(buf: &mut Vec<u8>, bytes: &[u8])
    ensures
        final(buf)@ == old(buf)@ + length_prefix(bytes@.len()) + bytes@,
{
    let n = bytes.len();
    let len = ((n as u64) % 0x1_0000_0000) as u32;
    put_u32(buf, len);
    append_bytes(buf, bytes);
}

/// A forward-only cursor over a byte buffer used during decoding. Its view is
/// the sequence of bytes not consumed yet.
pub struct Reader<'a> {
    buf: &'a [u8],
    pos: usize,
}

impl<'a> View for Reader<'a> {
    type V = Seq<u8>;

    closed spec fn view(&self) -> Seq<u8> {
        self.buf@.subrange(self.pos as int, self.buf@.len() as int)
    }
}

impl<'a> Reader<'a> {
    #[verifier::type_invariant]
    spec fn inv(self) -> bool {
        self.pos <= self.buf@.len()
    }

    /// A reader positioned at the start of `buf`.
    pub fn new(buf: &'a [u8]) -> (r: Self)
        ensures
            r@ == buf@,
    {
        let r = Self { buf, pos: 0 };
        assert(r@ =~= buf@);
        r
    }

    /// Consumes the next `n` bytes, or fails with `Corrupt` (consuming
    /// nothing) when fewer remain.
    pub fn take(&mut self, n: usize) -> (res: SdbResult<&'a [u8]>)
        ensures
            match res {
                Ok(s) => n <= old(self)@.len() && s@ == old(self)@.take(n as int) && final(self)@
                    == old(self)@.skip(n as int),
                Err(e) => n > old(self)@.len() && e is Corrupt && final(self)@ == old(self)@,
            },
    {
        proof {
            use_type_invariant(&*self);
        }
        assert(self.buf@.len() == self.buf.len());
        let end = match self.pos.checked_add(n) {
            Some(end) => end,
            None => {
                return Err(corrupt("length overflow while decoding"));
            },
        };
        if end > self.buf.len() {
            return Err(corrupt("unexpected end of buffer while decoding"));
        }
        let buf: &'a [u8] = self.buf;
        let slice = &buf[self.pos..end];
        let ghost before = self@;
        self.pos = end;
        assert(slice@ =~= before.take(n as int));
        assert(self@ =~= before.skip(n as int));
        Ok(slice)
    }

    /// Reads the next `n` bytes as a big-endian unsigned integer.
    pub fn be_uint(&mut self, n: usize) -> (res: SdbResult<u128>)
        requires
            n <= 16,
        ensures
            match res {
                Ok(v) => n <= old(self)@.len() && v as nat == be_value(old(self)@.take(n as int))
                    && final(self)@ == old(self)@.skip(n as int),
                Err(e) => n > old(self)@.len() && e is Corrupt && final(self)@ == old(self)@,
            },
    {
        let s = self.take(n)?;
        let mut v: u128 = 0;
        let mut i: usize = 0;
        while i < n
            invariant
                n <= 16,
                s@.len() == n,
                i <= n,
                v as nat == be_value(s@.take(i as int)),
            decreases n - i,
        {
            proof {
                lemma_be_value_bound(s@.take(i as int));
                lemma_pow256_le(i as nat, 15);
                lemma_pow256_values();
                assert(s@.take(i + 1).drop_last() =~= s@.take(i as int));
            }
            v = v * 256 + s[i] as u128;
            i = i + 1;
        }
        assert(s@.take(n as int) =~= s@);
        Ok(v)
    }

    /// Reads the next `n` bytes as a big-endian two's-complement integer.
    pub fn be_int(&mut self, n: usize) -> (res: SdbResult<i128>)
        requires
            n == 1 || n == 2 || n == 4 || n == 8 || n == 16,
        ensures
            match res {
                Ok(v) => n <= old(self)@.len() && v as int == from_twos(
                    be_value(old(self)@.take(n as int)),
                    n as nat,
                ) && final(self)@ == old(self)@.skip(n as int),
                Err(e) => n > old(self)@.len() && e is Corrupt && final(self)@ == old(self)@,
            },
    {
        let ghost start = self@;
        let u = self.be_uint(n)?;
        proof {
            lemma_be_value_bound(start.take(n as int));
            lemma_pow256_values();
        }
        let m = width_mask(n);
        let half = m / 2;
        if u > half {
            Ok(-((m - u) as i128) - 1)
        } else {
            Ok(u as i128)
        }
    }

    pub fn u8(&mut self) -> (res: SdbResult<u8>)
        ensures
            match res {
                Ok(v) => 1 <= old(self)@.len() && v == old(self)@[0] && final(self)@ == old(
                    self,
                )@.skip(1),
                Err(e) => old(self)@.len() == 0 && e is Corrupt && final(self)@ == old(self)@,
            },
    {
        let s = self.take(1)?;
        Ok(s[0])
    }

    pub fn u32(&mut self) -> (res: SdbResult<u32>)
        ensures
            match res {
                Ok(v) => 4 <= old(self)@.len() && v as nat == be_value(old(self)@.take(4))
                    && final(self)@ == old(self)@.skip(4),
                Err(e) => old(self)@.len() < 4 && e is Corrupt && final(self)@ == old(self)@,
            },
    {
        let v = self.be_uint(4)?;
        proof {
            lemma_be_value_bound(old(self)@.take(4));
            lemma_pow256_values();
        }
        Ok(v as u32)
    }

    pub fn u64(&mut self) -> (res: SdbResult<u64>)
        ensures
            match res {
                Ok(v) => 8 <= old(self)@.len() && v as nat == be_value(old(self)@.take(8))
                    && final(self)@ == old(self)@.skip(8),
                Err(e) => old(self)@.len() < 8 && e is Corrupt && final(self)@ == old(self)@,
            },
    {
        let v = self.be_uint(8)?;
        proof {
            lemma_be_value_bound(old(self)@.take(8));
            lemma_pow256_values();
        }
        Ok(v as u64)
    }

    /// Reads a length-prefixed byte run written by [`put_bytes`].
    pub fn bytes(&mut self) -> (res: SdbResult<&'a [u8]>)
        ensures
            match res {
                Ok(s) => {
                    let n = be_value(old(self)@.take(4)) as int;
                    &&& 4 + n <= old(self)@.len()
                    &&& s@ == old(self)@.subrange(4, 4 + n)
                    &&& final(self)@ == old(self)@.skip(4 + n)
                },
                Err(e) => e is Corrupt && (old(self)@.len() < 4 || 4 + be_value(old(self)@.take(4))
                    > old(self)@.len()),
            },
    {
        let ghost start = self@;
        let n = self.u32()?;
        let s = self.take(n as usize)?;
        assert(s@ =~= start.subrange(4, 4 + n as int));
        assert(self@ =~= start.skip(4 + n as int));
        Ok(s)
    }

    /// Whether every byte has been consumed.
    pub fn is_empty(&self) -> (b: bool)
        ensures
            b == (self@.len() == 0),
    {
        proof {
            use_type_invariant(self);
        }
        self.pos >= self.buf.len()
    }
}

pub proof fn lemma_pow256_le(a: nat, b: nat)
    requires
        a <= b,
    ensures
        pow256(a) <= pow256(b),
    decreases b,
{
    if a < b {
        lemma_pow256_le(a, (b - 1) as nat);
        lemma_pow256_positive((b - 1) as nat);
    }
}

} // verus!
