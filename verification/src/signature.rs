//! The block-signature index of the old sequence: the old bytes are read
//! once, block by block, and each block's record — its ordinal position and
//! its strong hash — is appended to the bucket keyed by the block's weak
//! digest. Bucket order therefore equals ascending block order.

use vstd::prelude::*;

verus! {

use std::collections::HashMap;

use crate::hashing::{strong_hash, strong_hash_of};
use crate::rollsum::{weak_of, Rollsum};
use crate::copy_range;

broadcast use vstd::std_specs::hash::group_hash_axioms;

/// How many blocks a source of `len` bytes yields at block size `bs`: full
/// blocks of `bs` bytes, plus one shorter final block when `bs` does not
/// divide `len`. A source shorter than one block yields a single short
/// block; an empty source yields none.
pub open spec fn num_chunks(len: int, bs: int) -> int
    decreases len,
{
    if bs < 1 || len <= 0 {
        0
    } else if len <= bs {
        1
    } else {
        1 + num_chunks(len - bs, bs)
    }
}

/// The bytes of block `i`: a `bs`-wide slice, clipped at the source's end.
pub open spec fn chunk_seq(src: Seq<u8>, bs: int, i: int) -> Seq<u8> {
    src.subrange(
        i * bs,
        if i * bs + bs <= src.len() {
            i * bs + bs
        } else {
            src.len() as int
        },
    )
}

/// The records of the first `n` blocks whose weak digest is `d`, in
/// ascending block order: each record is the block's ordinal and its strong
/// hash.
pub open spec fn bucket_upto(src: Seq<u8>, bs: int, d: u32, n: int) -> Seq<(u16, Seq<u8>)>
    decreases n,
{
    if n <= 0 {
        Seq::empty()
    } else {
        let prev = bucket_upto(src, bs, d, n - 1);
        if weak_of(chunk_seq(src, bs, n - 1)) == d {
            prev.push((((n - 1) as u16), strong_hash_of(chunk_seq(src, bs, n - 1))))
        } else {
            prev
        }
    }
}

/// The full bucket for weak digest `d`: the records of every block of the
/// source whose weak digest is `d`, in ascending block order.
pub open spec fn bucket_spec(src: Seq<u8>, bs: int, d: u32) -> Seq<(u16, Seq<u8>)> {
    bucket_upto(src, bs, d, num_chunks(src.len() as int, bs))
}

/// Strong hash of a block, together with the block's ordinal position in
/// the old sequence.
#[derive(Debug)]
pub struct BlockHash {
    pub block_index: u16,
    pub hash: Vec<u8>,
}

/// The record a `BlockHash` stands for: its ordinal and its hash bytes.
pub open spec fn rec_model(b: BlockHash) -> (u16, Seq<u8>) {
    (b.block_index, b.hash@)
}

/// The records a bucket's vector stands for, in vector order.
pub open spec fn bucket_model(v: Seq<BlockHash>) -> Seq<(u16, Seq<u8>)>
    decreases v.len(),
{
    if v.len() == 0 {
        Seq::empty()
    } else {
        bucket_model(v.drop_last()).push(rec_model(v.last()))
    }
}

pub proof fn lemma_bucket_model_push(v: Seq<BlockHash>, r: BlockHash)
    ensures
        bucket_model(v.push(r)) == bucket_model(v).push(rec_model(r)),
{
    assert(v.push(r).drop_last() =~= v);
}

pub proof fn lemma_bucket_model_len(v: Seq<BlockHash>)
    ensures
        bucket_model(v).len() == v.len(),
    decreases v.len(),
{
    if v.len() > 0 {
        lemma_bucket_model_len(v.drop_last());
    }
}

pub proof fn lemma_bucket_model_index(v: Seq<BlockHash>, i: int)
    requires
        0 <= i < v.len(),
    ensures
        bucket_model(v).len() == v.len(),
        bucket_model(v)[i] == rec_model(v[i]),
    decreases v.len(),
{
    lemma_bucket_model_len(v);
    if i < v.len() - 1 {
        lemma_bucket_model_index(v.drop_last(), i);
    }
}

/// When `len` lies in the `k`-th block span, the source has exactly `k`
/// blocks.
pub proof fn lemma_num_chunks_val(len: int, bs: int, k: int)
    requires
        bs >= 1,
        k >= 1,
        (k - 1) * bs < len,
        len <= k * bs,
    ensures
        num_chunks(len, bs) == k,
    decreases k,
{
    if k == 1 {
        assert((k - 1) * bs == 0 && k * bs == bs) by (nonlinear_arith)
            requires
                k == 1,
        ;
    } else {
        assert((k - 1) * bs - bs == (k - 2) * bs && k * bs - bs == (k - 1) * bs)
            by (nonlinear_arith);
        assert((k - 2) * bs >= 0) by (nonlinear_arith)
            requires
                k >= 2,
                bs >= 1,
        ;
        lemma_num_chunks_val(len - bs, bs, k - 1);
    }
}

/// A source of at least one byte has at least one block, and its byte
/// length lies in the span of its last block.
pub proof fn lemma_num_chunks_span(len: int, bs: int)
    requires
        bs >= 1,
        len >= 1,
    ensures
        ({
            let n = num_chunks(len, bs);
            &&& n >= 1
            &&& (n - 1) * bs < len
            &&& len <= n * bs
        }),
    decreases len,
{
    let n = num_chunks(len, bs);
    if len <= bs {
        assert(n == 1);
        assert((n - 1) * bs == 0 && n * bs == bs) by (nonlinear_arith)
            requires
                n == 1,
        ;
    } else {
        lemma_num_chunks_span(len - bs, bs);
        let n2 = num_chunks(len - bs, bs);
        assert(n == 1 + n2);
        assert((n2 - 1) * bs == (n - 1) * bs - bs && n2 * bs == n * bs - bs) by (nonlinear_arith)
            requires
                n == 1 + n2,
        ;
    }
}

/// Every record of the first `n` blocks carries a block ordinal below `n`.
pub proof fn lemma_bucket_upto_bound(src: Seq<u8>, bs: int, d: u32, n: int)
    ensures
        forall|i: int|
            0 <= i < bucket_upto(src, bs, d, n).len() ==> #[trigger] bucket_upto(
                src,
                bs,
                d,
                n,
            )[i].0 < n,
    decreases n,
{
    if n > 0 {
        lemma_bucket_upto_bound(src, bs, d, n - 1);
        let prev = bucket_upto(src, bs, d, n - 1);
        let cur = bucket_upto(src, bs, d, n);
        assert forall|i: int| 0 <= i < cur.len() implies cur[i].0 < n by {
            assert(((n - 1) as u16) as int <= 0xFFFF);
            if n - 1 <= 0xFFFF {
                assert(((n - 1) as u16) as int == n - 1);
            }
            if weak_of(chunk_seq(src, bs, n - 1)) == d {
                if i < prev.len() {
                    assert(cur[i] == prev[i]);
                }
            } else {
                assert(cur == prev);
            }
        }
    }
}

/// The in-memory signature of the old sequence: buckets keyed by weak
/// digest, the block size used, and the counts of blocks and bytes read.
/// The ghost `source` holds the bytes the signature was generated over; the
/// structural invariant ties every concrete field to it.
pub struct Signature {
    chunk_hashes: HashMap<u32, Vec<BlockHash>>,
    block_size: usize,
    blocks: u16,
    file_size: u16,
    source: Ghost<Seq<u8>>,
}

impl Signature {
    /// The bytes this signature was generated over (empty before
    /// `generate`).
    pub closed spec fn src(&self) -> Seq<u8> {
        self.source@
    }

    /// The block size this signature partitions its source by.
    pub closed spec fn bsize(&self) -> int {
        self.block_size as int
    }

    /// Structural invariant: the bucket map holds exactly the records of
    /// the source's blocks, grouped by weak digest in ascending block
    /// order, and the counters match the source.
    pub closed spec fn inv(&self) -> bool {
        &&& self.source@.len() <= 0xFFFF
        &&& self.blocks as int == num_chunks(self.source@.len() as int, self.block_size as int)
        &&& self.file_size as int == self.source@.len()
        &&& forall|d: u32|
            #[trigger] self.chunk_hashes@.contains_key(d) <==> bucket_spec(
                self.source@,
                self.block_size as int,
                d,
            ).len() != 0
        &&& forall|d: u32|
            #[trigger] self.chunk_hashes@.contains_key(d) ==> bucket_model(
                self.chunk_hashes@[d]@,
            ) == bucket_spec(self.source@, self.block_size as int, d)
    }

    pub fn new(block_size: usize) -> (r: Self)
        ensures
            r.inv(),
            r.bsize() == block_size as int,
            r.src() == Seq::<u8>::empty(),
    {
        let r = Self {
            chunk_hashes: HashMap::new(),
            block_size,
            blocks: 0,
            file_size: 0,
            source: Ghost(Seq::empty()),
        };
        proof {
            assert forall|d: u32| !r.chunk_hashes@.contains_key(d) by {}
            assert forall|d: u32|
                bucket_spec(r.source@, r.block_size as int, d).len() == 0 by {
                assert(num_chunks(0, r.block_size as int) == 0);
            }
        }
        r
    }

    /// Generates the signature: reads `input` sequentially in blocks of
    /// `block_size` bytes until exhausted (the final block may be shorter),
    /// hashing exactly the bytes of each block — never more — and appending
    /// each block's record to the bucket of its weak digest.
    pub fn generate(&mut self, input: &Vec<u8>)
        requires
            old(self).inv(),
            old(self).src().len() == 0,
            1 <= old(self).bsize() <= 0xFFFF,
            input@.len() <= 0xFFFF,
        ensures
            final(self).inv(),
            final(self).src() == input@,
            final(self).bsize() == old(self).bsize(),
    {
        let bs = self.block_size;
        let len = input.len();
        let src_snap: Ghost<Seq<u8>> = Ghost(input@);
        proof {
            assert forall|d: u32| !old(self).chunk_hashes@.contains_key(d) by {
                assert(num_chunks(0, bs as int) == 0);
                assert(bucket_spec(old(self).source@, bs as int, d).len() == 0);
            }
        }
        let mut pos: usize = 0;
        let ghost mut k: int = 0;
        while pos < len
            invariant
                self.block_size == bs,
                1 <= bs <= 0xFFFF,
                len == input.len() <= 0xFFFF,
                self.blocks as int == k,
                self.file_size as int == pos as int,
                0 <= k,
                pos as int == if k * (bs as int) <= len as int {
                    k * (bs as int)
                } else {
                    len as int
                },
                k >= 1 ==> (k - 1) * (bs as int) < len as int,
                forall|d: u32|
                    #[trigger] self.chunk_hashes@.contains_key(d) <==> bucket_upto(
                        input@,
                        bs as int,
                        d,
                        k,
                    ).len() != 0,
                forall|d: u32|
                    #[trigger] self.chunk_hashes@.contains_key(d) ==> bucket_model(
                        self.chunk_hashes@[d]@,
                    ) == bucket_upto(input@, bs as int, d, k),
            decreases len - pos,
        {
            proof {
                assert(k * (bs as int) >= k) by (nonlinear_arith)
                    requires
                        k >= 0,
                        bs >= 1,
                ;
            }
            let chunk_end: usize = if pos + bs <= len {
                pos + bs
            } else {
                len
            };
            let chunk = copy_range(input, pos, chunk_end);
            proof {
                assert(chunk@ =~= chunk_seq(input@, bs as int, k));
            }
            let rs = Rollsum::new(&chunk);
            let d = rs.digest();
            let sh = strong_hash(&chunk);
            let rec = BlockHash { block_index: self.blocks, hash: sh };
            proof {
                assert(d == weak_of(chunk_seq(input@, bs as int, k)));
                assert(rec_model(rec) == (
                    (k as u16),
                    strong_hash_of(chunk_seq(input@, bs as int, k)),
                ));
            }
            let ghost om = self.chunk_hashes@;
            let mut bucket = match self.chunk_hashes.remove(&d) {
                Some(v) => v,
                None => Vec::new(),
            };
            proof {
                if om.contains_key(d) {
                    assert(bucket_model(bucket@) == bucket_upto(input@, bs as int, d, k));
                } else {
                    assert(bucket_upto(input@, bs as int, d, k).len() == 0);
                    assert(bucket_model(bucket@) =~= bucket_upto(input@, bs as int, d, k));
                }
            }
            let ghost bucket_before = bucket@;
            bucket.push(rec);
            proof {
                lemma_bucket_model_push(bucket_before, rec);
            }
            self.chunk_hashes.insert(d, bucket);
            proof {
                assert(self.chunk_hashes@ =~= om.insert(d, bucket));
            }
            self.blocks = self.blocks + 1;
            self.file_size = self.file_size + (chunk_end - pos) as u16;
            pos = chunk_end;
            proof {
                let bsi = bs as int;
                assert((k + 1) * bsi == k * bsi + bsi) by (nonlinear_arith);
                assert forall|d2: u32| d2 != d implies bucket_upto(input@, bsi, d2, k + 1)
                    == bucket_upto(input@, bsi, d2, k) by {
                    assert(weak_of(chunk_seq(input@, bsi, k)) == d);
                }
                assert(bucket_upto(input@, bsi, d, k + 1) == bucket_upto(input@, bsi, d, k).push(
                    ((k as u16), strong_hash_of(chunk_seq(input@, bsi, k))),
                ));
                k = k + 1;
            }
        }
        proof {
            let bsi = bs as int;
            let li = len as int;
            if k == 0 {
                assert(pos == 0 && li == 0);
                assert(num_chunks(li, bsi) == 0);
            } else {
                assert((k - 1) * bsi < li);
                assert(li <= k * bsi);
                lemma_num_chunks_val(li, bsi, k);
            }
        }
        self.source = src_snap;
    }

    /// The bucket for weak digest `key`, or absent when no block of the
    /// source has that weak digest.
    pub fn get_chunk_map(&self, key: u32) -> (r: Option<&Vec<BlockHash>>)
        requires
            self.inv(),
        ensures
            match r {
                Some(v) => bucket_model(v@) == bucket_spec(self.src(), self.bsize(), key)
                    && bucket_spec(self.src(), self.bsize(), key).len() != 0,
                None => bucket_spec(self.src(), self.bsize(), key).len() == 0,
            },
    {
        self.chunk_hashes.get(&key)
    }

    /// Total bytes read from the source while generating.
    pub fn get_file_size(&self) -> (r: u16)
        requires
            self.inv(),
        ensures
            r as int == self.src().len(),
    {
        self.file_size
    }

    /// Number of blocks the source was partitioned into.
    pub fn get_blocks(&self) -> (r: u16)
        requires
            self.inv(),
        ensures
            r as int == num_chunks(self.src().len() as int, self.bsize()),
    {
        self.blocks
    }
}

} // verus!
