//! A delta-encoding engine in the rsync style: a compact signature of an
//! old byte sequence is built from a weak rolling checksum and a strong
//! hash, and a new byte sequence is then scanned against it in one
//! left-to-right pass, yielding an ordered list of insert/delete
//! instructions that describe how the new sequence differs from the old.

use vstd::prelude::*;

pub mod hashing;
pub mod rollsum;
pub mod signature;

verus! {

use crate::hashing::{strong_hash, strong_hash_of};
use crate::rollsum::{u32_mod, weak_of, wsum, wssum, Rollsum};
use crate::signature::{
    bucket_model, bucket_spec, bucket_upto, chunk_seq, lemma_bucket_model_index,
    lemma_bucket_upto_bound, lemma_num_chunks_span, num_chunks, BlockHash, Signature,
};

/// One instruction of a delta list.
#[derive(Debug)]
pub enum Delta {
    Add(Add),
    Delete(Delete),
}

/// An insertion: `content` begins at position `byte_index` of the new
/// sequence and is `bytes` long.
#[derive(Debug, PartialEq)]
pub struct Add {
    /// The first byte index at which to insert the content
    pub byte_index: u16,
    /// Total bytes to be inserted
    pub bytes: u16,
    /// Content to be inserted
    pub content: Vec<u8>,
}

/// A deletion of `bytes` bytes. `byte_index` is the scan-coordinate
/// position at which the removed span was detected — a position in the new
/// sequence's scan, not a verified old-sequence address.
#[derive(Debug, PartialEq)]
pub struct Delete {
    /// The scan position at which the removed span was detected
    pub byte_index: u16,
    /// Total bytes to be deleted
    pub bytes: u16,
}

impl Add {
    /// A fresh, empty insertion anchored at `byte_index`.
    pub fn new(byte_index: u16) -> (r: Self)
        ensures
            r.byte_index == byte_index,
            r.bytes == 0,
            r.content@ == Seq::<u8>::empty(),
    {
        Self { byte_index, bytes: 0, content: Vec::new() }
    }
}

/// The value a `Delta` stands for, over unbounded integers and byte
/// sequences.
pub enum DeltaModel {
    Add { at: int, len: int, content: Seq<u8> },
    Delete { at: int, len: int },
}

pub open spec fn delta_model(d: Delta) -> DeltaModel {
    match d {
        Delta::Add(a) => DeltaModel::Add {
            at: a.byte_index as int,
            len: a.bytes as int,
            content: a.content@,
        },
        Delta::Delete(x) => DeltaModel::Delete { at: x.byte_index as int, len: x.bytes as int },
    }
}

/// The values a delta list stands for, in list order.
pub open spec fn deltas_model(s: Seq<Delta>) -> Seq<DeltaModel>
    decreases s.len(),
{
    if s.len() == 0 {
        Seq::empty()
    } else {
        deltas_model(s.drop_last()).push(delta_model(s.last()))
    }
}

pub proof fn lemma_deltas_model_push(s: Seq<Delta>, d: Delta)
    ensures
        deltas_model(s.push(d)) == deltas_model(s).push(delta_model(d)),
{
    assert(s.push(d).drop_last() =~= s);
}

/// The scan of a bucket from position `i` on: the first record whose hash
/// equals `h` and whose block ordinal exceeds `consumed`.
pub open spec fn find_from(
    bucket: Seq<(u16, Seq<u8>)>,
    h: Seq<u8>,
    consumed: int,
    i: int,
) -> Option<u16>
    decreases bucket.len() - i,
{
    if i < 0 || i >= bucket.len() {
        None
    } else if bucket[i].1 == h && bucket[i].0 > consumed {
        Some(bucket[i].0)
    } else {
        find_from(bucket, h, consumed, i + 1)
    }
}

/// The first record of `bucket` whose hash equals `h` and whose block
/// ordinal exceeds `consumed`; with buckets in ascending block order this
/// is the lowest qualifying ordinal.
pub open spec fn find_match(bucket: Seq<(u16, Seq<u8>)>, h: Seq<u8>, consumed: int) -> Option<
    u16,
> {
    find_from(bucket, h, consumed, 0)
}

/// A match never reuses a block ordinal at or below the consumed bound,
/// and always names a record present in the bucket.
pub proof fn lemma_find_from_found(bucket: Seq<(u16, Seq<u8>)>, h: Seq<u8>, consumed: int, i: int)
    ensures
        match find_from(bucket, h, consumed, i) {
            Some(mi) => mi > consumed && exists|j: int|
                0 <= j < bucket.len() && bucket[j] == (mi, h),
            None => true,
        },
    decreases bucket.len() - i,
{
    if i < 0 || i >= bucket.len() {
    } else if bucket[i].1 == h && bucket[i].0 > consumed {
        assert(bucket[i] == (bucket[i].0, h));
    } else {
        lemma_find_from_found(bucket, h, consumed, i + 1);
    }
}

/// Forward-only invariant: at any scan state, the bucket search only ever
/// returns a block ordinal strictly above the consumed bound, so the
/// highest consumed ordinal is non-decreasing across a scan and no match
/// ever reuses a block at or below a previously consumed value.
pub proof fn lemma_forward_only(old: Seq<u8>, bs: int, w: Seq<u8>, consumed: int)
    ensures
        match find_match(bucket_spec(old, bs, weak_of(w)), strong_hash_of(w), consumed) {
            Some(mi) => mi > consumed,
            None => true,
        },
{
    lemma_find_from_found(bucket_spec(old, bs, weak_of(w)), strong_hash_of(w), consumed, 0);
}

/// Appending a qualifying record to a bucket whose remaining entries all
/// fail the forward-index test makes that record the one found.
proof fn lemma_find_tail_qualify(
    bucket: Seq<(u16, Seq<u8>)>,
    e: (u16, Seq<u8>),
    h: Seq<u8>,
    consumed: int,
    i: int,
)
    requires
        0 <= i <= bucket.len(),
        forall|j: int| i <= j < bucket.len() ==> #[trigger] bucket[j].0 <= consumed,
        e.1 == h,
        e.0 > consumed,
    ensures
        find_from(bucket.push(e), h, consumed, i) == Some(e.0),
    decreases bucket.len() - i,
{
    let bp = bucket.push(e);
    if i == bucket.len() {
        assert(bp[i] == e);
    } else {
        assert(bp[i] == bucket[i]);
        lemma_find_tail_qualify(bucket, e, h, consumed, i + 1);
    }
}

/// Appending a record to a bucket in which a match is already found leaves
/// the found record unchanged.
proof fn lemma_find_push_preserve(
    bucket: Seq<(u16, Seq<u8>)>,
    e: (u16, Seq<u8>),
    h: Seq<u8>,
    consumed: int,
    i: int,
)
    requires
        0 <= i,
        find_from(bucket, h, consumed, i) is Some,
    ensures
        find_from(bucket.push(e), h, consumed, i) == find_from(bucket, h, consumed, i),
    decreases bucket.len() - i,
{
    let bp = bucket.push(e);
    assert(i < bucket.len());
    assert(bp[i] == bucket[i]);
    if !(bucket[i].1 == h && bucket[i].0 > consumed) {
        lemma_find_push_preserve(bucket, e, h, consumed, i + 1);
    }
}

/// In the bucket of block `k`'s own weak digest, limited to the first `n`
/// blocks with `n > k`, the search with consumed bound `k - 1` finds block
/// `k` itself: every earlier record in the bucket carries a lower ordinal
/// and fails the forward test, and block `k`'s record carries its own
/// strong hash.
proof fn lemma_find_in_upto(src: Seq<u8>, bs: int, k: int, n: int)
    requires
        0 <= k <= 0xFFFE,
        k < n,
    ensures
        find_match(
            bucket_upto(src, bs, weak_of(chunk_seq(src, bs, k)), n),
            strong_hash_of(chunk_seq(src, bs, k)),
            k - 1,
        ) == Some(k as u16),
    decreases n,
{
    let d = weak_of(chunk_seq(src, bs, k));
    let h = strong_hash_of(chunk_seq(src, bs, k));
    if n == k + 1 {
        lemma_bucket_upto_bound(src, bs, d, k);
        let prev = bucket_upto(src, bs, d, k);
        assert(forall|j: int| 0 <= j < prev.len() ==> #[trigger] prev[j].0 <= k - 1);
        assert(bucket_upto(src, bs, d, n) == prev.push(((k as u16), h)));
        lemma_find_tail_qualify(prev, ((k as u16), h), h, k - 1, 0);
    } else {
        lemma_find_in_upto(src, bs, k, n - 1);
        let prev = bucket_upto(src, bs, d, n - 1);
        if weak_of(chunk_seq(src, bs, n - 1)) == d {
            lemma_find_push_preserve(
                prev,
                (((n - 1) as u16), strong_hash_of(chunk_seq(src, bs, n - 1))),
                h,
                k - 1,
                0,
            );
        }
    }
}

proof fn lemma_identity_from(src: Seq<u8>, bs: int, k: int)
    requires
        1 <= bs,
        bs <= src.len() <= 0xFFFF,
        0 <= k < src.len() as int / bs,
    ensures
        scan_from(src, src, bs, k * bs, k - 1, k * bs) == pending_piece(
            src,
            (src.len() as int / bs) * bs,
            src.len() as int,
        ) + trailing_piece(src.len() as int, bs, src.len() as int / bs - 1),
    decreases src.len() as int / bs - k,
{
    let len = src.len() as int;
    let blocks = num_chunks(len, bs);
    let q = len / bs;
    let r = len % bs;
    lemma_num_chunks_span(len, bs);
    vstd::arithmetic::div_mod::lemma_fundamental_div_mod(len, bs);
    assert(0 <= r < bs);
    assert(len == q * bs + r) by (nonlinear_arith)
        requires
            len == bs * q + r,
    ;
    assert(q <= blocks) by (nonlinear_arith)
        requires
            bs >= 1,
            len == q * bs + r,
            r >= 0,
            len <= blocks * bs,
    ;
    let start = k * bs;
    assert(0 <= start && start + bs == (k + 1) * bs && (k + 1) * bs <= q * bs && q * bs <= len
        && (k + 2) * bs == start + 2 * bs) by (nonlinear_arith)
        requires
            bs >= 1,
            0 <= k,
            k < q,
            len == q * bs + r,
            r >= 0,
            start == k * bs,
    ;
    assert(blocks <= len) by (nonlinear_arith)
        requires
            blocks >= 1,
            bs >= 1,
            (blocks - 1) * bs < len,
    ;
    assert(((k as u16) as int) == k);
    let w = src.subrange(start, start + bs);
    assert(w == chunk_seq(src, bs, k));
    lemma_find_in_upto(src, bs, k, blocks);
    assert(find_match(bucket_spec(src, bs, weak_of(w)), strong_hash_of(w), k - 1) == Some(
        k as u16,
    ));
    let e = Seq::<DeltaModel>::empty();
    assert(pending_piece(src, start, start) == e);
    let target = pending_piece(src, q * bs, len) + trailing_piece(len, bs, q - 1);
    if k == q - 1 {
        assert(start + 2 * bs > len && start + bs == q * bs) by (nonlinear_arith)
            requires
                bs >= 1,
                k == q - 1,
                len == q * bs + r,
                r < bs,
                start == k * bs,
        ;
        assert(scan_from(src, src, bs, start, k - 1, start) =~= target);
    } else {
        assert(start + 2 * bs <= len) by (nonlinear_arith)
            requires
                bs >= 1,
                k < q - 1,
                len == q * bs + r,
                r >= 0,
                start == k * bs,
        ;
        lemma_identity_from(src, bs, k + 1);
        assert(scan_from(src, src, bs, start + bs, k, start + bs) == target);
        assert(scan_from(src, src, bs, start, k - 1, start) =~= target);
    }
}

/// Identity: comparing a sequence against itself changes nothing beyond
/// what trailing partial-block bookkeeping requires. Every window matches
/// its own block in order, so the scan emits at most two instructions:
/// the bytes of a trailing partial block re-added as literals, and the old
/// partial block deleted. With no partial tail both pieces are empty.
pub proof fn lemma_identity(src: Seq<u8>, bs: int)
    requires
        1 <= bs,
        bs <= src.len() <= 0xFFFF,
    ensures
        scan_spec(src, src, bs) == pending_piece(
            src,
            (src.len() as int / bs) * bs,
            src.len() as int,
        ) + trailing_piece(src.len() as int, bs, src.len() as int / bs - 1),
{
    let len = src.len() as int;
    let bsn = bs;
    vstd::arithmetic::div_mod::lemma_fundamental_div_mod(len, bs);
    assert(len / bs >= 1) by (nonlinear_arith)
        requires
            bs >= 1,
            len >= bs,
            len == bs * (len / bs) + len % bs,
            0 <= len % bs < bs,
    ;
    assert(0 * bsn == 0) by (nonlinear_arith);
    lemma_identity_from(src, bs, 0);
}

/// Identity on a block-aligned sequence: the delta list is empty outright,
/// since there is no partial tail to rebook.
pub proof fn lemma_identity_aligned(src: Seq<u8>, bs: int)
    requires
        1 <= bs,
        bs <= src.len() <= 0xFFFF,
        src.len() as int % bs == 0,
    ensures
        scan_spec(src, src, bs) == Seq::<DeltaModel>::empty(),
{
    let len = src.len() as int;
    let q = len / bs;
    lemma_identity(src, bs);
    vstd::arithmetic::div_mod::lemma_fundamental_div_mod(len, bs);
    assert(len == q * bs) by (nonlinear_arith)
        requires
            len == bs * q + len % bs,
            len % bs == 0,
    ;
    assert(pending_piece(src, q * bs, len) == Seq::<DeltaModel>::empty());
    lemma_num_chunks_span(len, bs);
    let blocks = num_chunks(len, bs);
    assert(blocks == q) by (nonlinear_arith)
        requires
            bs >= 1,
            len == q * bs,
            (blocks - 1) * bs < len,
            len <= blocks * bs,
    ;
    assert(trailing_piece(len, bs, q - 1) == Seq::<DeltaModel>::empty());
    assert(Seq::<DeltaModel>::empty() + Seq::<DeltaModel>::empty()
        =~= Seq::<DeltaModel>::empty());
}

/// Byte-for-byte equality of two vectors.
fn bytes_eq(a: &Vec<u8>, b: &Vec<u8>) -> (r: bool)
    ensures
        r <==> a@ == b@,
{
    if a.len() != b.len() {
        proof {
            assert(a@.len() != b@.len());
        }
        return false;
    }
    let mut i: usize = 0;
    while i < a.len()
        invariant
            i <= a.len() == b.len(),
            forall|j: int| 0 <= j < i ==> a@[j] == b@[j],
        decreases a.len() - i,
    {
        if a[i] != b[i] {
            return false;
        }
        i = i + 1;
    }
    proof {
        assert(a@ =~= b@);
    }
    true
}

/// Scans `blocks` in bucket order for the first record whose strong hash
/// equals that of `window` and whose block ordinal exceeds
/// `consumed_block_index`; the forward-only constraint keeps any block from
/// being matched twice.
fn check_strong_hash(consumed_block_index: i32, window: &Vec<u8>, blocks: &Vec<BlockHash>) -> (r:
    Option<u16>)
    ensures
        r == find_match(bucket_model(blocks@), strong_hash_of(window@), consumed_block_index as int),
{
    let h = strong_hash(window);
    let ghost bm = bucket_model(blocks@);
    proof {
        crate::signature::lemma_bucket_model_len(blocks@);
    }
    let mut i: usize = 0;
    while i < blocks.len()
        invariant
            0 <= i <= blocks.len(),
            bm == bucket_model(blocks@),
            bm.len() == blocks@.len(),
            h@ == strong_hash_of(window@),
            find_from(bm, h@, consumed_block_index as int, 0) == find_from(
                bm,
                h@,
                consumed_block_index as int,
                i as int,
            ),
        decreases blocks.len() - i,
    {
        proof {
            lemma_bucket_model_index(blocks@, i as int);
        }
        let block = &blocks[i];
        if bytes_eq(&block.hash, &h) {
            if block.block_index as i32 > consumed_block_index {
                return Some(block.block_index);
            }
        }
        i = i + 1;
    }
    None
}

/// The insertion that flushes literal bytes `new[pa..upto]`, or nothing
/// when that span is empty.
pub open spec fn pending_piece(new: Seq<u8>, pa: int, upto: int) -> Seq<DeltaModel> {
    if upto > pa {
        seq![DeltaModel::Add { at: pa, len: upto - pa, content: new.subrange(pa, upto) }]
    } else {
        Seq::empty()
    }
}

/// The deletion that finalization emits when old blocks after the last
/// match were never consumed, sized to their combined nominal byte length
/// and anchored just after the last consumed block's span (at position 0
/// when no block was consumed at all).
pub open spec fn trailing_piece(old_len: int, bs: int, consumed: int) -> Seq<DeltaModel> {
    let blocks = num_chunks(old_len, bs);
    if consumed < blocks - 1 {
        seq![
            DeltaModel::Delete {
                at: (consumed + 1) * bs,
                len: old_len - (consumed + 1) * bs,
            },
        ]
    } else {
        Seq::empty()
    }
}

/// One iteration of the scan, from a window anchored at `start`, with
/// `consumed` the highest old-block ordinal matched so far and `pa` the
/// anchor of the literal bytes accumulated since the last flush
/// (`new[pa..start]`). On a match: skipped old blocks are deleted, pending
/// literals are flushed, and the window jumps a whole block — or, when the
/// jump would run past the end, the remainder is literal and the scan ends.
/// On no match the window slides one byte, or ends at the sequence's end.
pub open spec fn scan_from(
    old: Seq<u8>,
    new: Seq<u8>,
    bs: int,
    start: int,
    consumed: int,
    pa: int,
) -> Seq<DeltaModel>
    decreases new.len() - start,
{
    if bs < 1 || start < 0 || start + bs > new.len() || pa < 0 || pa > start {
        Seq::empty()
    } else {
        let w = new.subrange(start, start + bs);
        let bucket = bucket_spec(old, bs, weak_of(w));
        match find_match(bucket, strong_hash_of(w), consumed) {
            Some(mi) => {
                let m = mi as int;
                let dels = (if m > consumed + 1 {
                    seq![DeltaModel::Delete { at: start, len: (m - consumed - 1) * bs }]
                } else {
                    Seq::empty()
                }) + pending_piece(new, pa, start);
                if start + 2 * bs > new.len() {
                    dels + pending_piece(new, start + bs, new.len() as int) + trailing_piece(
                        old.len() as int,
                        bs,
                        m,
                    )
                } else {
                    dels + scan_from(old, new, bs, start + bs, m, start + bs)
                }
            },
            None => {
                if start + bs >= new.len() {
                    pending_piece(new, pa, new.len() as int) + trailing_piece(
                        old.len() as int,
                        bs,
                        consumed,
                    )
                } else {
                    scan_from(old, new, bs, start + 1, consumed, pa)
                }
            },
        }
    }
}

/// The delta list of one whole comparison: the single left-to-right,
/// non-backtracking pass of the new sequence against the old sequence's
/// signature.
pub open spec fn scan_spec(old: Seq<u8>, new: Seq<u8>, bs: int) -> Seq<DeltaModel> {
    scan_from(old, new, bs, 0, -1, 0)
}

/// A copy of `src[from..to]`.
pub(crate) fn copy_range(src: &Vec<u8>, from: usize, to: usize) -> (r: Vec<u8>)
    requires
        from <= to <= src.len(),
    ensures
        r@ == src@.subrange(from as int, to as int),
{
    let mut r: Vec<u8> = Vec::new();
    let mut i: usize = from;
    while i < to
        invariant
            from <= i <= to <= src.len(),
            r@ == src@.subrange(from as int, i as int),
        decreases to - i,
    {
        r.push(src[i]);
        proof {
            assert(src@.subrange(from as int, i + 1) =~= src@.subrange(
                from as int,
                i as int,
            ).push(src@[i as int]));
        }
        i = i + 1;
    }
    r
}

/// Compares `new_buf` against the signature of `old_buf` and returns the
/// ordered delta list of the scan: exactly the instructions `scan_spec`
/// names, in scan order. Both sequences must fit the 16-bit offset fields;
/// the new sequence must hold at least one full block (an old sequence
/// shorter than one block simply forms a single short block).
#[verifier::rlimit(60)]
pub fn check_diffs(block_size: usize, old_buf: &Vec<u8>, new_buf: &Vec<u8>) -> (deltas: Vec<
    Delta,
>)
    requires
        1 <= block_size <= 0xFFFF,
        old_buf@.len() <= 0xFFFF,
        block_size <= new_buf@.len() <= 0xFFFF,
    ensures
        deltas_model(deltas@) == scan_spec(old_buf@, new_buf@, block_size as int),
{
    let ghost oldv = old_buf@;
    let ghost newv = new_buf@;
    let ghost bs = block_size as int;
    let ghost total = scan_spec(oldv, newv, bs);

    let mut sig = Signature::new(block_size);
    sig.generate(old_buf);
    let ghost blocks = num_chunks(oldv.len() as int, bs);
    proof {
        if oldv.len() >= 1 {
            lemma_num_chunks_span(oldv.len() as int, bs);
        }
    }

    let buf_len = new_buf.len();
    let mut window = copy_range(new_buf, 0, block_size);
    let mut rs = Rollsum::new(&window);
    let mut start_win: u16 = 0;
    let mut deltas: Vec<Delta> = Vec::new();
    let mut new_bytes = Add::new(0);
    let mut consumed_block_index: i32 = -1;
    proof {
        assert(new_bytes.content@ =~= newv.subrange(0, 0));
        assert(deltas_model(deltas@) =~= Seq::<DeltaModel>::empty());
        assert(Seq::<DeltaModel>::empty() + total =~= total);
    }

    loop
        invariant_except_break
            sig.inv(),
            sig.src() == oldv,
            sig.bsize() == bs,
            bs == block_size as int,
            1 <= bs <= 0xFFFF,
            oldv == old_buf@,
            newv == new_buf@,
            oldv.len() <= 0xFFFF,
            buf_len == newv.len(),
            bs <= buf_len <= 0xFFFF,
            blocks == num_chunks(oldv.len() as int, bs),
            start_win as int + bs <= buf_len as int,
            window@ == newv.subrange(start_win as int, start_win as int + bs),
            rs.s == u32_mod(wsum(window@)),
            rs.ss == u32_mod(wssum(window@)),
            rs.block_size as int == bs,
            new_bytes.byte_index as int <= start_win as int,
            new_bytes.bytes as int == start_win as int - new_bytes.byte_index as int,
            new_bytes.content@ == newv.subrange(new_bytes.byte_index as int, start_win as int),
            -1 <= consumed_block_index as int <= blocks - 1,
            deltas_model(deltas@) + scan_from(
                oldv,
                newv,
                bs,
                start_win as int,
                consumed_block_index as int,
                new_bytes.byte_index as int,
            ) == total,
        ensures
            sig.inv(),
            sig.src() == oldv,
            sig.bsize() == bs,
            bs == block_size as int,
            1 <= bs <= 0xFFFF,
            oldv == old_buf@,
            newv == new_buf@,
            oldv.len() <= 0xFFFF,
            blocks == num_chunks(oldv.len() as int, bs),
            -1 <= consumed_block_index as int <= blocks - 1,
            new_bytes.byte_index as int + new_bytes.bytes as int <= newv.len(),
            new_bytes.content@ == newv.subrange(
                new_bytes.byte_index as int,
                new_bytes.byte_index as int + new_bytes.bytes as int,
            ),
            deltas_model(deltas@) + pending_piece(
                newv,
                new_bytes.byte_index as int,
                new_bytes.byte_index as int + new_bytes.bytes as int,
            ) + trailing_piece(oldv.len() as int, bs, consumed_block_index as int) == total,
        decreases buf_len - start_win,
    {
        let ghost start = start_win as int;
        let ghost c = consumed_block_index as int;
        let ghost pa = new_bytes.byte_index as int;
        let ghost w = newv.subrange(start, start + bs);
        let ghost rem_scan = scan_from(oldv, newv, bs, start, c, pa);
        let ghost dm0 = deltas_model(deltas@);

        let d = rs.digest();
        proof {
            assert(d == weak_of(w));
        }
        let matched: Option<u16> = match sig.get_chunk_map(d) {
            Some(bucket) => check_strong_hash(consumed_block_index, &window, bucket),
            None => None,
        };
        proof {
            assert(matched == find_match(bucket_spec(oldv, bs, weak_of(w)), strong_hash_of(w), c));
        }

        match matched {
            Some(mi) => {
                proof {
                    lemma_find_from_found(
                        bucket_spec(oldv, bs, weak_of(w)),
                        strong_hash_of(w),
                        c,
                        0,
                    );
                    lemma_bucket_upto_bound(oldv, bs, weak_of(w), blocks);
                    assert(mi as int > c);
                    let bsp = bucket_spec(oldv, bs, weak_of(w));
                    let j = choose|j: int|
                        0 <= j < bsp.len() && bsp[j] == (mi, strong_hash_of(w));
                    assert(bucket_upto(oldv, bs, weak_of(w), blocks)[j].0 < blocks);
                    assert((mi as int) < blocks);
                    assert(oldv.len() >= 1);
                    lemma_num_chunks_span(oldv.len() as int, bs);
                }
                let ghost m = mi as int;
                let ghost del_piece: Seq<DeltaModel> = if m > c + 1 {
                    seq![DeltaModel::Delete { at: start, len: (m - c - 1) * bs }]
                } else {
                    Seq::empty()
                };
                let ghost add_piece = pending_piece(newv, pa, start);

                let cplus: u16 = (consumed_block_index + 1) as u16;
                let advanced: u16 = mi - cplus;
                if advanced > 0 {
                    proof {
                        vstd::arithmetic::mul::lemma_mul_inequality(
                            advanced as int,
                            blocks - 1,
                            bs,
                        );
                    }
                    let del = Delta::Delete(
                        Delete { byte_index: start_win, bytes: advanced * (block_size as u16) },
                    );
                    let ghost ds0 = deltas@;
                    deltas.push(del);
                    proof {
                        lemma_deltas_model_push(ds0, del);
                        assert(deltas_model(deltas@) =~= dm0 + del_piece);
                    }
                } else {
                    proof {
                        assert(deltas_model(deltas@) =~= dm0 + del_piece);
                    }
                }
                consumed_block_index = mi as i32;
                let ghost dm1 = deltas_model(deltas@);
                if new_bytes.bytes > 0 {
                    let ghost ds1 = deltas@;
                    let ghost flushed = new_bytes;
                    deltas.push(Delta::Add(new_bytes));
                    proof {
                        lemma_deltas_model_push(ds1, Delta::Add(flushed));
                        assert(deltas_model(deltas@) =~= dm1 + add_piece);
                    }
                } else {
                    proof {
                        assert(deltas_model(deltas@) =~= dm1 + add_piece);
                    }
                }
                proof {
                    assert(deltas_model(deltas@) =~= dm0 + del_piece + add_piece);
                }
                new_bytes = Add::new(start_win + block_size as u16);
                if start_win as usize + 2 * block_size > buf_len {
                    let rem_start = start_win as usize + block_size;
                    let rem_len = buf_len - rem_start;
                    if rem_len > 0 {
                        new_bytes.bytes = rem_len as u16;
                        new_bytes.content = copy_range(new_buf, rem_start, buf_len);
                    }
                    proof {
                        assert(new_bytes.content@ =~= newv.subrange(
                            rem_start as int,
                            rem_start as int + new_bytes.bytes as int,
                        ));
                        assert(rem_scan =~= del_piece + add_piece + pending_piece(
                            newv,
                            start + bs,
                            newv.len() as int,
                        ) + trailing_piece(oldv.len() as int, bs, m));
                        assert(deltas_model(deltas@) + pending_piece(
                            newv,
                            new_bytes.byte_index as int,
                            new_bytes.byte_index as int + new_bytes.bytes as int,
                        ) + trailing_piece(oldv.len() as int, bs, consumed_block_index as int)
                            =~= dm0 + rem_scan);
                    }
                    break;
                } else {
                    start_win = start_win + block_size as u16;
                    window = copy_range(new_buf, start_win as usize, start_win as usize
                        + block_size);
                    let _ = rs.batch_roll(&window);
                    proof {
                        assert(rem_scan =~= del_piece + add_piece + scan_from(
                            oldv,
                            newv,
                            bs,
                            start + bs,
                            m,
                            start + bs,
                        ));
                        assert(deltas_model(deltas@) + scan_from(
                            oldv,
                            newv,
                            bs,
                            start_win as int,
                            consumed_block_index as int,
                            new_bytes.byte_index as int,
                        ) =~= dm0 + rem_scan);
                        assert(new_bytes.content@ =~= newv.subrange(
                            start_win as int,
                            start_win as int,
                        ));
                    }
                }
            },
            None => {
                let ghost content0 = new_bytes.content@;
                new_bytes.content.push(window[0]);
                new_bytes.bytes = new_bytes.bytes + 1;
                proof {
                    assert(window@[0] == newv[start]);
                    assert(content0.push(newv[start]) =~= newv.subrange(pa, start + 1));
                }
                if start_win as usize + block_size >= buf_len {
                    new_bytes.bytes = (buf_len - new_bytes.byte_index as usize) as u16;
                    new_bytes.content = copy_range(
                        new_buf,
                        new_bytes.byte_index as usize,
                        buf_len,
                    );
                    proof {
                        assert(rem_scan =~= pending_piece(newv, pa, newv.len() as int)
                            + trailing_piece(oldv.len() as int, bs, c));
                        assert(deltas_model(deltas@) + pending_piece(
                            newv,
                            new_bytes.byte_index as int,
                            new_bytes.byte_index as int + new_bytes.bytes as int,
                        ) + trailing_piece(oldv.len() as int, bs, consumed_block_index as int)
                            =~= dm0 + rem_scan);
                    }
                    break;
                } else {
                    let ob = window[0];
                    let nb = new_buf[start_win as usize + block_size];
                    window.remove(0);
                    window.push(nb);
                    proof {
                        assert(window@ =~= w.drop_first().push(nb));
                        crate::rollsum::lemma_roll_slide(w, nb);
                    }
                    rs.roll_hash(Some(nb), ob);
                    start_win = start_win + 1;
                    proof {
                        assert(window@ =~= newv.subrange(start + 1, start + 1 + bs));
                        assert(rem_scan == scan_from(oldv, newv, bs, start + 1, c, pa));
                    }
                }
            },
        }
    }

    let ghost dm_break = deltas_model(deltas@);
    let ghost pend = pending_piece(
        newv,
        new_bytes.byte_index as int,
        new_bytes.byte_index as int + new_bytes.bytes as int,
    );
    if new_bytes.bytes > 0 {
        let ghost ds0 = deltas@;
        let ghost flushed = new_bytes;
        deltas.push(Delta::Add(new_bytes));
        proof {
            lemma_deltas_model_push(ds0, Delta::Add(flushed));
        }
    }
    proof {
        assert(deltas_model(deltas@) =~= dm_break + pend);
    }
    let ghost dm2 = deltas_model(deltas@);
    let blocks_count = sig.get_blocks();
    if consumed_block_index < blocks_count as i32 - 1 {
        proof {
            assert(blocks >= 1);
            assert(oldv.len() >= 1);
            lemma_num_chunks_span(oldv.len() as int, bs);
            vstd::arithmetic::mul::lemma_mul_inequality(
                consumed_block_index as int + 1,
                blocks - 1,
                bs,
            );
        }
        let cplus: u16 = (consumed_block_index + 1) as u16;
        let byte_index: u16 = cplus * (block_size as u16);
        let del_bytes: u16 = sig.get_file_size() - byte_index;
        let del = Delta::Delete(Delete { byte_index, bytes: del_bytes });
        let ghost ds1 = deltas@;
        deltas.push(del);
        proof {
            lemma_deltas_model_push(ds1, del);
        }
    }
    proof {
        assert(deltas_model(deltas@) =~= dm2 + trailing_piece(
            oldv.len() as int,
            bs,
            consumed_block_index as int,
        ));
        assert(deltas_model(deltas@) =~= total);
    }
    deltas
}

} // verus!
