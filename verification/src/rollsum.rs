//! The weak rolling checksum: an incrementally updatable fingerprint over a
//! fixed-width byte window, in the Adler-32 style used by rsync.
//!
//! The mathematical model keeps the two running sums exactly, as unbounded
//! integers (`wsum`, `wssum`); the executable state holds their values reduced
//! modulo 2^32, which is the silent-wraparound arithmetic the digest is
//! defined over.

use vstd::prelude::*;

verus! {

use vstd::arithmetic::div_mod::{
    lemma_add_mod_noop, lemma_mod_add_multiples_vanish, lemma_mod_twice,
    lemma_mul_mod_noop_general, lemma_small_mod, lemma_sub_mod_noop,
};

/// Reduction of an integer into the 32-bit unsigned range.
pub open spec fn u32_mod(x: int) -> u32 {
    (x % 0x1_0000_0000) as u32
}

/// Wrapping 32-bit addition, as a value-level operation.
pub open spec fn wadd32(a: u32, b: u32) -> u32 {
    u32_mod(a + b)
}

/// Wrapping 32-bit subtraction, as a value-level operation.
pub open spec fn wsub32(a: u32, b: u32) -> u32 {
    u32_mod(a + 0x1_0000_0000 - b)
}

/// Wrapping 32-bit multiplication, as a value-level operation.
pub open spec fn wmul32(a: u32, b: u32) -> u32 {
    u32_mod(a * b)
}

/// The exact (unwrapped) sum of a window's bytes.
pub open spec fn wsum(b: Seq<u8>) -> int
    decreases b.len(),
{
    if b.len() == 0 {
        0
    } else {
        b[0] + wsum(b.drop_first())
    }
}

/// The exact (unwrapped) sum of the running partial sums: as each byte enters
/// left to right, the running byte-sum is added once, so the byte at offset
/// `i` of a window of length `n` contributes `n - i` times.
pub open spec fn wssum(b: Seq<u8>) -> int
    decreases b.len(),
{
    if b.len() == 0 {
        0
    } else {
        b.len() * b[0] + wssum(b.drop_first())
    }
}

/// How the digest combines the two sums: the sum-of-sums is shifted left by
/// 16 bits, without masking either operand first, and or-ed with the byte
/// sum. High bits of the sum-of-sums deliberately overlap bits of the byte
/// sum; the fingerprint is defined with exactly this shape, so the same
/// window always yields the same digest bit for bit.
pub open spec fn digest_of(s: u32, ss: u32) -> u32 {
    (ss << 16) | s
}

/// The weak digest of a window's bytes.
pub open spec fn weak_of(b: Seq<u8>) -> u32 {
    digest_of(u32_mod(wsum(b)), u32_mod(wssum(b)))
}

pub proof fn lemma_wsum_nonneg(b: Seq<u8>)
    ensures
        wsum(b) >= 0,
        wssum(b) >= 0,
    decreases b.len(),
{
    if b.len() > 0 {
        lemma_wsum_nonneg(b.drop_first());
    }
}

pub proof fn lemma_wsum_push(b: Seq<u8>, y: u8)
    ensures
        wsum(b.push(y)) == wsum(b) + y,
        wssum(b.push(y)) == wssum(b) + wsum(b) + y,
    decreases b.len(),
{
    if b.len() == 0 {
        assert(b.push(y).drop_first() =~= Seq::<u8>::empty());
        assert(b.push(y)[0] == y);
        assert(wsum(Seq::<u8>::empty()) == 0);
        assert(wssum(Seq::<u8>::empty()) == 0);
        assert(wsum(b.push(y)) == wsum(b) + y);
        assert(wssum(b.push(y)) == wssum(b) + wsum(b) + y);
    } else {
        let t = b.drop_first();
        assert(b.push(y).drop_first() =~= t.push(y));
        assert(b.push(y)[0] == b[0]);
        lemma_wsum_push(t, y);
        assert((b.len() + 1) * b[0] == b.len() * b[0] + b[0]) by (nonlinear_arith);
        assert(b.push(y).len() * b.push(y)[0] == (b.len() + 1) * b[0]);
    }
}

/// Adding two already-reduced values and reducing again equals reducing the
/// exact sum.
pub proof fn lemma_mod_add2(x: int, y: int)
    requires
        x >= 0,
        y >= 0,
    ensures
        wadd32(u32_mod(x), u32_mod(y)) == u32_mod(x + y),
{
    lemma_add_mod_noop(x, y, 0x1_0000_0000);
    lemma_mod_twice(x + y, 0x1_0000_0000);
}

/// Subtracting an already-reduced value (with the borrow constant the
/// executable code adds) equals reducing the exact difference.
pub proof fn lemma_mod_sub2(x: int, y: int)
    requires
        0 <= y <= x,
    ensures
        wsub32(u32_mod(x), u32_mod(y)) == u32_mod(x - y),
{
    let m = 0x1_0000_0000int;
    lemma_sub_mod_noop(x, y, m);
    lemma_mod_add_multiples_vanish(x % m - y % m, m);
    lemma_mod_twice(x - y, m);
}

/// Multiplying two already-reduced values and reducing equals reducing the
/// exact product.
pub proof fn lemma_mod_mul2(x: int, y: int)
    requires
        x >= 0,
        y >= 0,
    ensures
        wmul32(u32_mod(x), u32_mod(y)) == u32_mod(x * y),
{
    let m = 0x1_0000_0000int;
    lemma_mul_mod_noop_general(x, y, m);
    lemma_mod_twice(x * y, m);
}

/// Digest equivalence: a state built by a fresh pass over a window and one
/// rebuilt from scratch over the same bytes carry the same sums, and so
/// the same digest — the window's weak digest.
pub proof fn lemma_digest_equivalence(a: Rollsum, b: Rollsum, w: Seq<u8>)
    requires
        a.s == u32_mod(wsum(w)),
        a.ss == u32_mod(wssum(w)),
        b.s == u32_mod(wsum(w)),
        b.ss == u32_mod(wssum(w)),
    ensures
        digest_of(a.s, a.ss) == digest_of(b.s, b.ss),
        digest_of(a.s, a.ss) == weak_of(w),
{
}

/// Incremental equivalence: applying the one-byte roll update — subtract
/// the leaving byte from the byte sum, subtract width times the leaving
/// byte from the sum-of-sums, admit the entering byte, and add the new byte
/// sum — to the sums of a window yields exactly the sums of the slid
/// window, so rolling across a sequence gives the same digest at each
/// position as a fresh pass over that window.
pub proof fn lemma_roll_slide(w: Seq<u8>, nb: u8)
    requires
        1 <= w.len() <= 0xFFFF_FFFF,
    ensures
        ({
            let w2 = w.drop_first().push(nb);
            &&& wadd32(wsub32(u32_mod(wsum(w)), w[0] as u32), nb as u32) == u32_mod(wsum(w2))
            &&& wadd32(
                wsub32(u32_mod(wssum(w)), wmul32(w.len() as u32, w[0] as u32)),
                u32_mod(wsum(w2)),
            ) == u32_mod(wssum(w2))
        }),
{
    let t = w.drop_first();
    let w2 = t.push(nb);
    let w0 = w[0] as int;
    let len = w.len() as int;
    lemma_wsum_push(t, nb);
    lemma_wsum_nonneg(t);
    lemma_wsum_nonneg(w2);
    assert(wsum(w) == w0 + wsum(t));
    assert(wssum(w) == len * w0 + wssum(t));
    assert(len * w0 >= 0) by (nonlinear_arith)
        requires
            len >= 0,
            w0 >= 0,
    ;
    let m = 0x1_0000_0000int;
    lemma_small_mod(w[0] as nat, m as nat);
    lemma_small_mod(nb as nat, m as nat);
    lemma_small_mod(w.len() as nat, m as nat);
    // byte sum
    lemma_mod_sub2(wsum(w), w0);
    lemma_mod_add2(wsum(w) - w0, nb as int);
    assert(wsum(w2) == wsum(w) - w0 + nb);
    // sum of sums
    lemma_mod_mul2(len, w0);
    assert(wmul32(w.len() as u32, w[0] as u32) == u32_mod(len * w0));
    lemma_mod_sub2(wssum(w), len * w0);
    lemma_mod_add2(wssum(w) - len * w0, wsum(w2));
    assert(wssum(w2) == wssum(w) - len * w0 + wsum(w2));
}

/// The weak rolling checksum over a fixed-width byte window. All arithmetic
/// wraps silently at 32 bits; the same window bytes always yield the same
/// state, bit for bit.
pub struct Rollsum {
    /// sum of the window's bytes, wrapped at 32 bits
    pub s: u32,
    /// sum of the running partial byte sums, wrapped at 32 bits
    pub ss: u32,
    /// the current logical window width in bytes
    pub block_size: usize,
}

#[derive(Debug)]
pub enum Error {
    BatchRollError,
}

impl Rollsum {
    /// Builds the state by a fresh left-to-right pass over the window.
    pub fn new(buf: &Vec<u8>) -> (r: Self)
        ensures
            r.s == u32_mod(wsum(buf@)),
            r.ss == u32_mod(wssum(buf@)),
            r.block_size == buf.len(),
    {
        let mut s: u32 = 0;
        let mut ss: u32 = 0;
        let mut i: usize = 0;
        while i < buf.len()
            invariant
                i <= buf.len(),
                s == u32_mod(wsum(buf@.take(i as int))),
                ss == u32_mod(wssum(buf@.take(i as int))),
            decreases buf.len() - i,
        {
            let b = buf[i];
            proof {
                let p = buf@.take(i as int);
                assert(buf@.take(i + 1) =~= p.push(buf@[i as int]));
                lemma_wsum_push(p, b);
                lemma_wsum_nonneg(p);
                lemma_small_mod(b as nat, 0x1_0000_0000nat);
                lemma_mod_add2(wsum(p), b as int);
                lemma_mod_add2(wssum(p), wsum(p) + b);
            }
            s = ((s as u64 + b as u64) % 0x1_0000_0000) as u32;
            ss = ((ss as u64 + s as u64) % 0x1_0000_0000) as u32;
            i = i + 1;
        }
        proof {
            assert(buf@.take(buf.len() as int) =~= buf@);
        }
        Self { s, ss, block_size: i }
    }

    /// The digest at the current window.
    pub fn digest(&self) -> (r: u32)
        ensures
            r == digest_of(self.s, self.ss),
    {
        self.ss << 16 | self.s
    }

    /// Slides the window one byte forward: the leaving byte is removed from
    /// both sums (it had entered `block_size` partial sums while resident).
    /// With `Some(new_byte)` the width stays constant and the entering byte
    /// is admitted; with `None` the window narrows by one at the tail of a
    /// sequence.
    pub fn roll_hash(&mut self, new_byte: Option<u8>, old_byte: u8)
        requires
            old(self).block_size < 0x1_0000_0000,
            new_byte is None ==> old(self).block_size >= 1,
        ensures
            final(self).ss == {
                let drop = wsub32(
                    old(self).ss,
                    wmul32(old(self).block_size as u32, old_byte as u32),
                );
                if new_byte is Some {
                    wadd32(drop, final(self).s)
                } else {
                    drop
                }
            },
            final(self).s == {
                let drop = wsub32(old(self).s, old_byte as u32);
                if new_byte is Some {
                    wadd32(drop, new_byte.unwrap() as u32)
                } else {
                    drop
                }
            },
            final(self).block_size == if new_byte is Some {
                old(self).block_size as int
            } else {
                old(self).block_size - 1
            },
    {
        self.s = ((self.s as u64 + 0x1_0000_0000 - old_byte as u64) % 0x1_0000_0000) as u32;
        let w32: u32 = self.block_size as u32;
        proof {
            vstd::arithmetic::mul::lemma_mul_upper_bound(
                w32 as int,
                0xFFFF_FFFF,
                old_byte as int,
                0xFF,
            );
        }
        let width_times_old: u64 = w32 as u64 * old_byte as u64;
        proof {
            assert((width_times_old as int) % 0x1_0000_0000 == wmul32(
                old(self).block_size as u32,
                old_byte as u32,
            )) by {
                lemma_small_mod(
                    (old(self).block_size as u32) as nat,
                    0x1_0000_0000nat,
                );
                lemma_small_mod(old_byte as nat, 0x1_0000_0000nat);
                lemma_mod_mul2((old(self).block_size as u32) as int, old_byte as int);
            }
        }
        let drop: u64 = width_times_old % 0x1_0000_0000;
        self.ss = ((self.ss as u64 + 0x1_0000_0000 - drop) % 0x1_0000_0000) as u32;
        match new_byte {
            Some(nb) => {
                self.s = ((self.s as u64 + nb as u64) % 0x1_0000_0000) as u32;
                self.ss = ((self.ss as u64 + self.s as u64) % 0x1_0000_0000) as u32;
            }
            None => {
                self.block_size = self.block_size - 1;
            }
        }
        proof {
            let m = 0x1_0000_0000int;
            lemma_small_mod(old(self).s as nat, m as nat);
            lemma_small_mod(old(self).ss as nat, m as nat);
            lemma_small_mod(old_byte as nat, m as nat);
        }
    }

    /// Discards the state and rebuilds both sums from scratch over `buffer`;
    /// rejected with a length-mismatch error when `buffer` is not exactly
    /// the current window width.
    pub fn batch_roll(&mut self, buffer: &Vec<u8>) -> (r: Result<(), Error>)
        ensures
            buffer.len() == old(self).block_size ==> {
                &&& r is Ok
                &&& final(self).s == u32_mod(wsum(buffer@))
                &&& final(self).ss == u32_mod(wssum(buffer@))
                &&& final(self).block_size == old(self).block_size
            },
            buffer.len() != old(self).block_size ==> {
                &&& r == Result::<(), Error>::Err(Error::BatchRollError)
                &&& *final(self) == *old(self)
            },
    {
        if buffer.len() != self.block_size {
            return Err(Error::BatchRollError);
        }
        let fresh = Rollsum::new(buffer);
        self.s = fresh.s;
        self.ss = fresh.ss;
        Ok(())
    }
}

} // verus!
