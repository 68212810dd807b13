//! CRC-32 checksums of a file of zero bytes into which bytes are inserted one
//! edit at a time, without building the file: the runs of zeros between the
//! edits are hashed once, in blocks, and the hash states are combined.
use vstd::prelude::*;
use crc32fast::Hasher;
use crate::text::{
    chars_of, decimal, hex8, parse_i32, parse_u64, parse_u8, parsed_i32, parsed_u64, parsed_u8, push_char,
    push_decimal, push_hex8, split, split_on, string_of,
};

verus! {

// ---------------------------------------------------------------------------
// The CRC-32 hasher of `crc32fast`
// ---------------------------------------------------------------------------

#[verifier::external_type_specification]
#[verifier::external_body]
pub struct ExHasher(crc32fast::Hasher);

/// The bytes whose checksum a `crc32fast::Hasher` holds: what it was
/// created with and then fed, by `update` or by `combine`.
pub uninterp spec fn hashed_bytes(h: Hasher) -> Seq<u8>;

/// One bit of the CRC-32 (IEEE) register update: shift right, and where a
/// one falls out, add the reflected polynomial `0xEDB88320`.
pub open spec fn crc_bit(c: u32) -> u32 {
    if (c & 1u32) == 1u32 {
        (c >> 1u32) ^ 0xEDB88320u32
    } else {
        c >> 1u32
    }
}

/// The register after feeding one byte: the byte is added into the low
/// bits, then eight bit steps follow.
pub open spec fn crc_byte(c: u32, b: u8) -> u32 {
    let x = c ^ (b as u32);
    crc_bit(crc_bit(crc_bit(crc_bit(crc_bit(crc_bit(crc_bit(crc_bit(x))))))))
}

/// The register after feeding the bytes, starting from all ones.
pub open spec fn crc_register(data: Seq<u8>) -> u32
    decreases data.len(),
{
    if data.len() == 0 {
        0xFFFF_FFFFu32
    } else {
        crc_byte(crc_register(data.drop_last()), data.last())
    }
}

/// The CRC-32 (IEEE) checksum of a sequence of bytes: the final register,
/// with all its bits flipped.
#[verifier::opaque]
pub open spec fn crc32(data: Seq<u8>) -> u32 {
    crc_register(data) ^ 0xFFFF_FFFFu32
}

/// `Hasher::new`: a hasher that has been fed nothing.
#[verifier::external_body]
pub(crate) fn hasher_new() -> (h: Hasher)
    ensures
        hashed_bytes(h) == Seq::<u8>::empty(),
{
    Hasher::new()
}

/// `Hasher::update`: feeds `buf` after what the hasher was fed. The crate
/// adds the length to a `u64` count, which must not overflow.
#[verifier::external_body]
pub(crate) fn hasher_update(h: &mut Hasher, buf: &[u8])
    requires
        hashed_bytes(*old(h)).len() + buf@.len() <= u64::MAX,
    ensures
        hashed_bytes(*final(h)) == hashed_bytes(*old(h)) + buf@,
{
    h.update(buf);
}

/// `Hasher::combine`: the crate documents it as combining the state with
/// the state of the block of bytes that follows, so the hasher then holds
/// its own bytes followed by those of `other`.
#[verifier::external_body]
pub(crate) fn hasher_combine(h: &mut Hasher, other: &Hasher)
    requires
        hashed_bytes(*old(h)).len() + hashed_bytes(*other).len() <= u64::MAX,
    ensures
        hashed_bytes(*final(h)) == hashed_bytes(*old(h)) + hashed_bytes(*other),
{
    h.combine(other);
}

/// `Hasher::finalize`: the checksum of the bytes the hasher holds.
#[verifier::external_body]
pub(crate) fn hasher_finalize(h: Hasher) -> (r: u32)
    ensures
        r == crc32(hashed_bytes(h)),
{
    h.finalize()
}

// ---------------------------------------------------------------------------
// Runs of zero bytes
// ---------------------------------------------------------------------------

/// `n` zero bytes.
pub open spec fn zeros(n: int) -> Seq<u8> {
    Seq::new(n as nat, |_i: int| 0u8)
}

proof fn lemma_zeros_concat(a: int, b: int)
    requires
        a >= 0,
        b >= 0,
    ensures
        zeros(a) + zeros(b) == zeros(a + b),
{
    assert(zeros(a) + zeros(b) =~= zeros(a + b));
}

/// One billion: the zero run whose hash state is kept ready.
pub const GB: u64 = 1000000000;

/// One million: the smaller zero run whose hash state is kept ready.
pub const MB: u64 = 1000000;

const CHUNK: u64 = 65536;

fn zero_bytes(n: u64) -> (r: Vec<u8>)
    ensures
        r@ == zeros(n as int),
{
    let mut r: Vec<u8> = Vec::new();
    let mut i: u64 = 0;
    while i < n
        invariant
            i <= n,
            r@ == zeros(i as int),
        decreases n - i,
    {
        r.push(0u8);
        i = i + 1;
        assert(r@ =~= zeros(i as int));
    }
    r
}

/// A hasher fed `n` zero bytes (fed a chunk at a time).
pub fn zero_hasher(n: u64) -> (h: Hasher)
    ensures
        hashed_bytes(h) == zeros(n as int),
{
    let mut h = hasher_new();
    let chunk = zero_bytes(CHUNK);
    let mut left: u64 = n;
    assert(hashed_bytes(h) =~= zeros(0));
    while left >= CHUNK
        invariant
            left <= n,
            hashed_bytes(h) == zeros(n - left),
            chunk@ == zeros(CHUNK as int),
        decreases left,
    {
        hasher_update(&mut h, chunk.as_slice());
        proof {
            lemma_zeros_concat(n - left, CHUNK as int);
        }
        left = left - CHUNK;
    }
    let rest = zero_bytes(left);
    hasher_update(&mut h, rest.as_slice());
    proof {
        lemma_zeros_concat(n - left, left as int);
    }
    h
}

// ---------------------------------------------------------------------------
// Blocks of zeros between the edit offsets
// ---------------------------------------------------------------------------

/// The hash state of the zero bytes from the end of the previous block up to
/// `end`.
pub struct HashBlock {
    pub end: u64,
    pub state: Hasher,
}

/// Where block `k` starts: where the previous one ends, or at 0.
pub open spec fn block_start(blocks: Seq<HashBlock>, k: int) -> int {
    if k <= 0 {
        0
    } else {
        blocks[k - 1].end as int
    }
}

/// The blocks cut `[0, size)` into nonempty consecutive runs, each holding
/// the hash state of its zero bytes.
#[verifier::opaque]
pub open spec fn blocks_ok(blocks: Seq<HashBlock>, size: int) -> bool {
    &&& forall|k: int|
        0 <= k < blocks.len() ==> block_start(blocks, k) < #[trigger] blocks[k].end
    &&& forall|k: int|
        0 <= k < blocks.len() ==> hashed_bytes(#[trigger] blocks[k].state) == zeros(
            blocks[k].end - block_start(blocks, k),
        )
    &&& block_start(blocks, blocks.len() as int) == size
}

/// Whether some block ends at `x`.
pub open spec fn is_block_end(blocks: Seq<HashBlock>, x: int) -> bool {
    exists|k: int| 0 <= k < blocks.len() && #[trigger] blocks[k].end == x
}

proof fn lemma_block_ends_increase(blocks: Seq<HashBlock>, size: int, j: int, k: int)
    requires
        blocks_ok(blocks, size),
        0 <= j <= k <= blocks.len(),
    ensures
        block_start(blocks, j) <= block_start(blocks, k),
        j < k ==> block_start(blocks, j) < block_start(blocks, k),
    decreases k - j,
{
    reveal(blocks_ok);
    if j < k {
        lemma_block_ends_increase(blocks, size, j, k - 1);
        assert(block_start(blocks, k - 1) < blocks[k - 1].end);
    }
}

proof fn lemma_push_contains<T>(s: Seq<T>, v: T, x: T)
    ensures
        s.push(v).contains(x) <==> (s.contains(x) || x == v),
{
    if s.push(v).contains(x) {
        let k = choose|k: int| 0 <= k < s.len() + 1 && s.push(v)[k] == x;
        if k < s.len() {
            assert(s[k] == x);
        }
    }
    if s.contains(x) {
        let k = choose|k: int| 0 <= k < s.len() && s[k] == x;
        assert(s.push(v)[k] == x);
    }
    if x == v {
        assert(s.push(v)[s.len() as int] == x);
    }
}

/// The sorted distinct values of `values`.
pub fn sorted_unique(values: &Vec<u64>) -> (r: Vec<u64>)
    ensures
        forall|a: int, b: int| 0 <= a < b < r@.len() ==> r@[a] < r@[b],
        forall|x: u64| r@.contains(x) <==> values@.contains(x),
{
    let mut r: Vec<u64> = Vec::new();
    for i in 0..values.len()
        invariant
            forall|a: int, b: int| 0 <= a < b < r@.len() ==> r@[a] < r@[b],
            forall|x: u64| r@.contains(x) <==> values@.take(i as int).contains(x),
    {
        let v = values[i];
        let mut p: usize = 0;
        while p < r.len() && r[p] < v
            invariant
                p <= r@.len(),
                forall|a: int| 0 <= a < p ==> r@[a] < v,
            decreases r@.len() - p,
        {
            p = p + 1;
        }
        let ghost before = r@;
        assert(values@.take(i + 1) =~= values@.take(i as int).push(v));
        if p < r.len() && r[p] == v {
            assert forall|x: u64| r@.contains(x) <==> values@.take(i + 1).contains(x) by {
                lemma_push_contains(values@.take(i as int), v, x);
                if x == v {
                    assert(r@[p as int] == v);
                }
            }
        } else {
            r.insert(p, v);
            assert(r@ == before.insert(p as int, v));
            assert forall|a: int| 0 <= a < p implies r@[a] == before[a] by {}
            assert forall|a: int| p < a < r@.len() implies r@[a] == before[a - 1] by {}
            assert(r@[p as int] == v);
            assert forall|a: int, b: int| 0 <= a < b < r@.len() implies r@[a] < r@[b] by {
                if b < p {
                } else if b == p {
                } else if a < p {
                    assert(r@[b] == before[b - 1]);
                    if p < before.len() {
                        assert(v < before[p as int]);
                        if b - 1 > p {
                            assert(before[p as int] < before[b - 1]);
                        }
                    }
                } else if a == p {
                    assert(r@[b] == before[b - 1]);
                    assert(v < before[p as int]);
                    if b - 1 > p {
                        assert(before[p as int] < before[b - 1]);
                    }
                } else {
                    assert(r@[a] == before[a - 1]);
                    assert(r@[b] == before[b - 1]);
                }
            }
            assert forall|x: u64| r@.contains(x) <==> values@.take(i + 1).contains(x) by {
                lemma_push_contains(values@.take(i as int), v, x);
                if r@.contains(x) && x != v {
                    let a = choose|a: int| 0 <= a < r@.len() && r@[a] == x;
                    if a < p {
                        assert(before[a] == x);
                    } else {
                        assert(a > p);
                        assert(before[a - 1] == x);
                    }
                    assert(before.contains(x));
                }
                if x == v {
                    assert(r@[p as int] == v);
                }
                if before.contains(x) {
                    let a = choose|a: int| 0 <= a < before.len() && before[a] == x;
                    if a < p {
                        assert(r@[a] == x);
                    } else {
                        assert(r@[a + 1] == x);
                    }
                }
            }
        }
    }
    assert(values@.take(values@.len() as int) =~= values@);
    r
}

#[verifier::spinoff_prover]
#[verifier::rlimit(30)]
proof fn lemma_push_block(before: Seq<HashBlock>, after: Seq<HashBlock>, start: int)
    requires
        blocks_ok(before, start),
        after.len() == before.len() + 1,
        forall|k: int| 0 <= k < before.len() ==> after[k] == before[k],
        start < after[before.len() as int].end,
        hashed_bytes(after[before.len() as int].state) == zeros(after[before.len() as int].end - start),
    ensures
        blocks_ok(after, after[before.len() as int].end as int),
{
    reveal(blocks_ok);
    let n = before.len() as int;
    assert(block_start(after, n) == start) by {
        if n > 0 {
            assert(after[n - 1] == before[n - 1]);
        }
    }
    assert forall|k: int| 0 <= k < after.len() implies block_start(after, k) < #[trigger] after[k].end
        && hashed_bytes(after[k].state) == zeros(after[k].end - block_start(after, k)) by {
        if k < n {
            assert(after[k] == before[k]);
            if k > 0 {
                assert(after[k - 1] == before[k - 1]);
            }
            assert(block_start(after, k) == block_start(before, k));
            assert(block_start(before, k) < before[k].end);
            assert(hashed_bytes(before[k].state) == zeros(before[k].end - block_start(before, k)));
        }
    }
}

fn zero_block(bytes: u64, gb: &Hasher, mb: &Hasher) -> (h: Hasher)
    requires
        hashed_bytes(*gb) == zeros(GB as int),
        hashed_bytes(*mb) == zeros(MB as int),
    ensures
        hashed_bytes(h) == zeros(bytes as int),
{
    let mut hasher = hasher_new();
    let mut left: u64 = bytes;
    assert(hashed_bytes(hasher) =~= zeros(0));
    while left >= GB
        invariant
            left <= bytes,
            hashed_bytes(hasher) == zeros(bytes - left),
            hashed_bytes(*gb) == zeros(GB as int),
        decreases left,
    {
        hasher_combine(&mut hasher, gb);
        proof {
            lemma_zeros_concat(bytes - left, GB as int);
        }
        left = left - GB;
    }
    while left >= MB
        invariant
            left <= bytes,
            hashed_bytes(hasher) == zeros(bytes - left),
            hashed_bytes(*mb) == zeros(MB as int),
        decreases left,
    {
        hasher_combine(&mut hasher, mb);
        proof {
            lemma_zeros_concat(bytes - left, MB as int);
        }
        left = left - MB;
    }
    let buffer = zero_bytes(left);
    hasher_update(&mut hasher, buffer.as_slice());
    proof {
        lemma_zeros_concat(bytes - left, left as int);
    }
    hasher
}

/// The blocks of zeros of a file of `file_size` bytes cut at every edit
/// offset: one block ends at each nonzero offset and at the end of the file.
pub fn hash_blocks(
    file_size: u64,
    edits: &Vec<((u64, u8), usize)>,
    gb: &Hasher,
    mb: &Hasher,
) -> (blocks: Vec<HashBlock>)
    requires
        hashed_bytes(*gb) == zeros(GB as int),
        hashed_bytes(*mb) == zeros(MB as int),
        forall|i: int| 0 <= i < edits@.len() ==> (#[trigger] edits@[i]).0.0 <= file_size,
    ensures
        blocks_ok(blocks@, file_size as int),
        forall|x: int|
            is_block_end(blocks@, x) <==> (x != 0 && (x == file_size || exists|i: int|
                0 <= i < edits@.len() && (#[trigger] edits@[i]).0.0 == x)),
{
    reveal(blocks_ok);
    let mut offsets: Vec<u64> = Vec::new();
    for i in 0..edits.len()
        invariant
            offsets@.len() == i,
            forall|k: int| 0 <= k < i ==> offsets@[k] == (#[trigger] edits@[k]).0.0,
    {
        offsets.push((edits[i].0).0);
    }
    let sorted = sorted_unique(&offsets);
    assert forall|x: u64| sorted@.contains(x) implies x <= file_size by {
        assert(offsets@.contains(x));
        let k = choose|k: int| 0 <= k < offsets@.len() && offsets@[k] == x;
        assert(edits@[k].0.0 == x);
    }
    let mut current: u64 = 0;
    let mut blocks: Vec<HashBlock> = Vec::new();
    for t in 0..sorted.len()
        invariant
            forall|a: int, b: int| 0 <= a < b < sorted@.len() ==> sorted@[a] < sorted@[b],
            forall|x: u64| sorted@.contains(x) ==> x <= file_size,
            hashed_bytes(*gb) == zeros(GB as int),
            hashed_bytes(*mb) == zeros(MB as int),
            blocks_ok(blocks@, current as int),
            current == (if t == 0 {
                0
            } else {
                sorted@[t - 1]
            }),
            forall|x: int|
                is_block_end(blocks@, x) <==> (x != 0 && exists|a: int|
                    0 <= a < t && sorted@[a] == x),
    {
        let split = sorted[t];
        assert(sorted@.contains(split));
        if split != current {
            proof {
                assert(current < split) by {
                    if t > 0 {
                        assert(sorted@[t - 1] < sorted@[t as int]);
                    }
                }
            }
            let total = split - current;
            let hasher = zero_block(total, gb, mb);
            let ghost before = blocks@;
            blocks.push(HashBlock { end: current + total, state: hasher });
            proof {
                lemma_push_block(before, blocks@, current as int);
                assert forall|x: int|
                    is_block_end(blocks@, x) <==> (x != 0 && exists|a: int|
                        0 <= a < t + 1 && sorted@[a] == x) by {
                    if is_block_end(blocks@, x) {
                        let k = choose|k: int| 0 <= k < blocks@.len() && #[trigger] blocks@[k].end == x;
                        if k < before.len() {
                            assert(before[k].end == x);
                            assert(is_block_end(before, x));
                        } else {
                            assert(sorted@[t as int] == x);
                            assert(x != 0);
                        }
                    }
                    if x != 0 && exists|a: int| 0 <= a < t + 1 && sorted@[a] == x {
                        let a = choose|a: int| 0 <= a < t + 1 && sorted@[a] == x;
                        if a < t {
                            assert(is_block_end(before, x));
                            let k = choose|k: int| 0 <= k < before.len() && #[trigger] before[k].end == x;
                            assert(blocks@[k].end == x);
                        } else {
                            assert(blocks@[before.len() as int].end == x);
                        }
                    }
                }
            }
            current = current + total;
        } else {
            assert forall|x: int|
                is_block_end(blocks@, x) <==> (x != 0 && exists|a: int|
                    0 <= a < t + 1 && sorted@[a] == x) by {
                if x != 0 && exists|a: int| 0 <= a < t + 1 && sorted@[a] == x {
                    let a = choose|a: int| 0 <= a < t + 1 && sorted@[a] == x;
                    if a == t {
                        assert(t == 0);
                        assert(false);
                    }
                }
            }
        }
    }
    assert(current <= file_size) by {
        if sorted@.len() > 0 {
            assert(sorted@.contains(sorted@[sorted@.len() - 1]));
        }
    }
    let ghost loop_blocks = blocks@;
    if current != file_size {
        let hasher = zero_block(file_size - current, gb, mb);
        let ghost before = blocks@;
        blocks.push(HashBlock { end: file_size, state: hasher });
        proof {
            lemma_push_block(before, blocks@, current as int);
        }
    }
    proof {
        let n = sorted@.len() as int;
        assert forall|x: int|
            is_block_end(blocks@, x) <==> (x != 0 && (x == file_size || exists|i: int|
                0 <= i < edits@.len() && (#[trigger] edits@[i]).0.0 == x)) by {
            let in_sorted = exists|a: int| 0 <= a < n && sorted@[a] == x;
            let in_edits = exists|i: int| 0 <= i < edits@.len() && (#[trigger] edits@[i]).0.0 == x;
            if in_sorted {
                let a = choose|a: int| 0 <= a < n && sorted@[a] == x;
                let xx = sorted@[a];
                assert(sorted@.contains(xx));
                assert(offsets@.contains(xx));
                let k = choose|k: int| 0 <= k < offsets@.len() && offsets@[k] == xx;
                assert(edits@[k].0.0 == x);
            }
            if in_edits {
                let i = choose|i: int| 0 <= i < edits@.len() && (#[trigger] edits@[i]).0.0 == x;
                let xx = edits@[i].0.0;
                assert(offsets@[i] == xx);
                assert(offsets@.contains(xx));
                assert(sorted@.contains(xx));
                let a = choose|a: int| 0 <= a < n && sorted@[a] == xx;
            }
            assert(in_sorted <==> in_edits);
            if current != file_size {
                assert(blocks@ == loop_blocks.push(blocks@[loop_blocks.len() as int]));
                if is_block_end(blocks@, x) {
                    let k = choose|k: int| 0 <= k < blocks@.len() && #[trigger] blocks@[k].end == x;
                    if k < loop_blocks.len() {
                        assert(loop_blocks[k].end == x);
                    }
                }
                if is_block_end(loop_blocks, x) {
                    let k = choose|k: int| 0 <= k < loop_blocks.len() && #[trigger] loop_blocks[k].end == x;
                    assert(blocks@[k].end == x);
                }
                if x == file_size {
                    assert(blocks@[loop_blocks.len() as int].end == x);
                }
            } else {
                if x == file_size && x != 0 {
                    assert(n > 0);
                    assert(sorted@[n - 1] == x);
                }
            }
        }
    }
    blocks
}

// ---------------------------------------------------------------------------
// Hashing the edited file
// ---------------------------------------------------------------------------

/// The offset of the last edit (0 if there is none).
pub open spec fn last_offset(e: Seq<(u64, u8)>) -> int {
    if e.len() == 0 {
        0
    } else {
        e.last().0 as int
    }
}

/// The start of the edited file, up to and including the last edit: each
/// edit's byte comes after the zeros that run from the previous edit's
/// offset to its own.
pub open spec fn placed(e: Seq<(u64, u8)>) -> Seq<u8>
    decreases e.len(),
{
    if e.len() == 0 {
        seq![]
    } else {
        placed(e.drop_last()) + zeros(e.last().0 - last_offset(e.drop_last())) + seq![e.last().1]
    }
}

/// A file of `size` zero bytes with the edits' bytes inserted, the edits
/// given in order of offset, an offset counting the zero bytes before it.
pub open spec fn assemble(size: int, e: Seq<(u64, u8)>) -> Seq<u8> {
    placed(e) + zeros(size - last_offset(e))
}

/// The edits can be walked over the blocks: their offsets never decrease and
/// each is 0 or the end of a block.
#[verifier::opaque]
pub open spec fn walk_ok(e: Seq<(u64, u8)>, blocks: Seq<HashBlock>) -> bool {
    &&& forall|k: int|
        0 <= k < e.len() ==> ((#[trigger] e[k]).0 == 0 || is_block_end(blocks, e[k].0 as int))
    &&& forall|j: int, k: int| 0 <= j < k < e.len() ==> (#[trigger] e[j]).0 <= (#[trigger] e[k]).0
}

/// Where the blocks end (0 for no block).
pub open spec fn blocks_end(blocks: Seq<HashBlock>) -> int {
    block_start(blocks, blocks.len() as int)
}

proof fn lemma_placed_len(e: Seq<(u64, u8)>)
    requires
        forall|j: int, k: int| 0 <= j < k < e.len() ==> (#[trigger] e[j]).0 <= (#[trigger] e[k]).0,
    ensures
        placed(e).len() == last_offset(e) + e.len(),
    decreases e.len(),
{
    if e.len() > 0 {
        let d = e.drop_last();
        assert forall|j: int, k: int| 0 <= j < k < d.len() implies (#[trigger] d[j]).0 <= (
        #[trigger] d[k]).0 by {
            assert(d[j] == e[j]);
            assert(d[k] == e[k]);
        }
        lemma_placed_len(d);
        if d.len() > 0 {
            assert(d.last() == e[e.len() - 2]);
        }
    }
}

proof fn lemma_block_end_bound(blocks: Seq<HashBlock>, size: int, t: int)
    requires
        blocks_ok(blocks, size),
        0 <= t < blocks.len(),
    ensures
        blocks[t].end == block_start(blocks, t + 1),
        block_start(blocks, t + 1) <= size,
        block_start(blocks, t) < blocks[t].end,
        hashed_bytes(blocks[t].state) == zeros(blocks[t].end - block_start(blocks, t)),
{
    reveal(blocks_ok);
    lemma_block_ends_increase(blocks, size, t + 1, blocks.len() as int);
}

proof fn lemma_walk_step(blocks: Seq<HashBlock>, size: int, e: Seq<(u64, u8)>, k: int, i: int)
    requires
        blocks_ok(blocks, size),
        walk_ok(e, blocks),
        0 <= k < e.len(),
        0 <= i <= blocks.len(),
        block_start(blocks, i) < e[k].0,
    ensures
        i < blocks.len(),
        blocks[i].end <= e[k].0,
        blocks[i].end == block_start(blocks, i + 1),
        block_start(blocks, i + 1) <= size,
        block_start(blocks, i) < blocks[i].end,
        hashed_bytes(blocks[i].state) == zeros(blocks[i].end - block_start(blocks, i)),
{
    reveal(walk_ok);
    assert(e[k].0 == 0 || is_block_end(blocks, e[k].0 as int));
    let t = choose|t: int| 0 <= t < blocks.len() && #[trigger] blocks[t].end == e[k].0;
    lemma_block_end_bound(blocks, size, t);
    if t < i {
        lemma_block_ends_increase(blocks, size, t + 1, i);
    }
    assert(i <= t);
    lemma_block_ends_increase(blocks, size, i + 1, t + 1);
    lemma_block_end_bound(blocks, size, i);
}

proof fn lemma_walk_order(e: Seq<(u64, u8)>, blocks: Seq<HashBlock>, k: int)
    requires
        walk_ok(e, blocks),
        0 <= k <= e.len(),
    ensures
        forall|a: int, b: int| 0 <= a < b < k ==> (#[trigger] e.take(k)[a]).0 <= (#[trigger] e.take(k)[b]).0,
        k > 0 && k < e.len() ==> e[k - 1].0 <= e[k].0,
{
    reveal(walk_ok);
    assert forall|a: int, b: int| 0 <= a < b < k implies (#[trigger] e.take(k)[a]).0 <= (#[trigger] e.take(k)[b]).0 by {
        assert(e.take(k)[a] == e[a]);
        assert(e.take(k)[b] == e[b]);
    }
}

/// The checksum of the edited file, walking the edits over the blocks:
/// before each edit the blocks up to its offset are combined, then its byte
/// is fed; the remaining blocks come last.
pub fn hash(edits: &Vec<(u64, u8)>, hash_blocks: &Vec<HashBlock>) -> (r: u32)
    requires
        blocks_ok(hash_blocks@, blocks_end(hash_blocks@)),
        walk_ok(edits@, hash_blocks@),
        blocks_end(hash_blocks@) + edits@.len() <= u64::MAX,
    ensures
        r == crc32(assemble(blocks_end(hash_blocks@), edits@)),
{
    let ghost blocks = hash_blocks@;
    let ghost size = blocks_end(blocks);
    let ghost e = edits@;
    let mut hasher = hasher_new();
    let mut current_offset: u64 = 0;
    let mut i: usize = 0;
    let nb = hash_blocks.len();
    assert(e.take(0) =~= Seq::<(u64, u8)>::empty());
    for k in 0..edits.len()
        invariant
            nb == blocks.len(),
            blocks == hash_blocks@,
            e == edits@,
            size == blocks_end(blocks),
            blocks_ok(blocks, size),
            walk_ok(e, blocks),
            size + e.len() <= u64::MAX,
            i <= blocks.len(),
            current_offset == block_start(blocks, i as int),
            current_offset == last_offset(e.take(k as int)),
            hashed_bytes(hasher) == placed(e.take(k as int)),
    {
        let edit = edits[k];
        let ghost prefix = e.take(k as int);
        let ghost prev = last_offset(prefix);
        proof {
            lemma_walk_order(e, blocks, k as int);
            if k > 0 {
                assert(prefix.last() == e[k - 1]);
            }
            lemma_placed_len(prefix);
            assert(zeros(0) =~= Seq::<u8>::empty());
            assert(hashed_bytes(hasher) == placed(prefix) + zeros(current_offset - prev));
        }
        while current_offset != edit.0
            invariant
                nb == blocks.len(),
                blocks == hash_blocks@,
                e == edits@,
                size == blocks_end(blocks),
                blocks_ok(blocks, size),
                walk_ok(e, blocks),
                size + e.len() <= u64::MAX,
                0 <= k < e.len(),
                edit == e[k as int],
                prefix == e.take(k as int),
                prev == last_offset(prefix),
                placed(prefix).len() == prev + k,
                prev <= current_offset <= edit.0,
                i <= blocks.len(),
                current_offset == block_start(blocks, i as int),
                hashed_bytes(hasher) == placed(prefix) + zeros(current_offset - prev),
            decreases edit.0 - current_offset,
        {
            proof {
                lemma_walk_step(blocks, size, e, k as int, i as int);
            }
            let block = &hash_blocks[i];
            hasher_combine(&mut hasher, &block.state);
            proof {
                lemma_zeros_concat(current_offset - prev, block.end - current_offset);
            }
            current_offset = block.end;
            i = i + 1;
        }
        proof {
            lemma_block_ends_increase(blocks, size, i as int, blocks.len() as int);
        }
        let byte = vec![edit.1];
        hasher_update(&mut hasher, byte.as_slice());
        proof {
            let next = e.take(k + 1);
            assert(next.drop_last() =~= prefix);
            assert(next.last() == edit);
            assert(byte@ =~= seq![edit.1]);
        }
    }
    let ghost all = e.take(e.len() as int);
    assert(all =~= e);
    proof {
        lemma_walk_order(e, blocks, e.len() as int);
        assert(e.take(e.len() as int) =~= e);
        lemma_placed_len(e);
        assert(zeros(0) =~= Seq::<u8>::empty());
        assert(hashed_bytes(hasher) == placed(e) + zeros(current_offset - last_offset(e)));
    }
    while i != hash_blocks.len()
        invariant
            blocks == hash_blocks@,
            size == blocks_end(blocks),
            blocks_ok(blocks, size),
            size + e.len() <= u64::MAX,
            placed(e).len() == last_offset(e) + e.len(),
            last_offset(e) <= current_offset,
            i <= blocks.len(),
            current_offset == block_start(blocks, i as int),
            hashed_bytes(hasher) == placed(e) + zeros(current_offset - last_offset(e)),
        decreases blocks.len() - i,
    {
        proof {
            lemma_block_end_bound(blocks, size, i as int);
        }
        let block = &hash_blocks[i];
        hasher_combine(&mut hasher, &block.state);
        proof {
            lemma_zeros_concat(current_offset - last_offset(e), block.end - current_offset);
        }
        current_offset = block.end;
        i = i + 1;
    }
    hasher_finalize(hasher)
}

/// Whether the edits can be walked over the blocks (see `walk_ok`).
pub fn walk_fits(edits: &Vec<(u64, u8)>, hash_blocks: &Vec<HashBlock>) -> (r: bool)
    ensures
        r == walk_ok(edits@, hash_blocks@),
{
    reveal(walk_ok);
    for k in 0..edits.len()
        invariant
            forall|a: int| 0 <= a < k ==> ((#[trigger] edits@[a]).0 == 0 || is_block_end(hash_blocks@, edits@[a].0 as int)),
            forall|a: int, b: int| 0 <= a < b < k ==> (#[trigger] edits@[a]).0 <= (#[trigger] edits@[b]).0,
    {
        let off = edits[k].0;
        if k > 0 && edits[k - 1].0 > off {
            proof {
                reveal(walk_ok);
                assert(!(edits@[k - 1].0 <= edits@[k as int].0));
                assert(!walk_ok(edits@, hash_blocks@));
            }
            return false;
        }
        if off != 0 {
            let mut found = false;
            for t in 0..hash_blocks.len()
                invariant
                    found <==> exists|u: int| 0 <= u < t && #[trigger] hash_blocks@[u].end == off,
            {
                if hash_blocks[t].end == off {
                    found = true;
                }
            }
            if !found {
                assert(!is_block_end(hash_blocks@, edits@[k as int].0 as int));
                assert(!((edits@[k as int]).0 == 0 || is_block_end(hash_blocks@, edits@[k as int].0 as int)));
                proof {
                    reveal(walk_ok);
                    assert(!walk_ok(edits@, hash_blocks@));
                }
                return false;
            }
        }
        assert forall|a: int, b: int| 0 <= a < b < k + 1 implies (#[trigger] edits@[a]).0 <= (#[trigger] edits@[b]).0 by {
            if b == k && a < k - 1 {
                assert(edits@[a].0 <= edits@[k - 1].0);
            }
        }
    }
    true
}

// ---------------------------------------------------------------------------
// Correcting the offsets and ordering the edits
// ---------------------------------------------------------------------------

/// Edit `a` is placed before edit `b` in the file: its offset is smaller,
/// or equal with `a` given later.
pub open spec fn precedes(offs: Seq<u64>, a: int, b: int) -> bool {
    offs[a] < offs[b] || (offs[a] == offs[b] && a > b)
}

/// Some edit has rank `q`.
pub open spec fn rank_taken(offs: Seq<u64>, q: int) -> bool {
    exists|i: int| 0 <= i < offs.len() && #[trigger] insertion_rank(offs, i) == q
}

/// How many `x` in `0..n` satisfy `p`.
pub open spec fn count_where(p: spec_fn(int) -> bool, n: int) -> nat
    decreases n,
{
    if n <= 0 {
        0
    } else {
        count_where(p, n - 1) + if p(n - 1) {
            1nat
        } else {
            0nat
        }
    }
}

/// The position of edit `i` when the edits are ordered by `precedes`: the
/// number of edits placed before it.
pub open spec fn insertion_rank(offs: Seq<u64>, i: int) -> nat {
    count_where(|j: int| precedes(offs, j, i), offs.len() as int)
}

/// `v` lowered by one for each of the first `upto` offsets found smaller
/// than it, checking them in order against the value lowered so far.
pub open spec fn shifted_offset(offs: Seq<u64>, v: int, upto: int) -> int
    decreases upto,
{
    if upto <= 0 {
        v
    } else {
        let w = shifted_offset(offs, v, upto - 1);
        if (offs[upto - 1] as int) < w {
            w - 1
        } else {
            w
        }
    }
}

/// The offset of edit `i` after the correction for the edits given before it.
pub open spec fn corrected_offset(offs: Seq<u64>, i: int) -> int {
    shifted_offset(offs, offs[i] as int, i)
}

/// The offsets of a list of edits.
pub open spec fn offsets_of(edits: Seq<(u64, u8)>) -> Seq<u64> {
    Seq::new(edits.len(), |i: int| edits[i].0)
}

proof fn lemma_count_bound(p: spec_fn(int) -> bool, n: int)
    requires
        n >= 0,
    ensures
        count_where(p, n) <= n,
        count_where(p, n) < n ==> exists|x: int| 0 <= x < n && !#[trigger] p(x),
    decreases n,
{
    if n > 0 {
        lemma_count_bound(p, n - 1);
    }
}

proof fn lemma_count_ext(p: spec_fn(int) -> bool, q: spec_fn(int) -> bool, n: int)
    requires
        forall|x: int| #![trigger p(x)] #![trigger q(x)] 0 <= x < n ==> p(x) == q(x),
    ensures
        count_where(p, n) == count_where(q, n),
    decreases n,
{
    if n > 0 {
        lemma_count_ext(p, q, n - 1);
    }
}

proof fn lemma_count_add(p: spec_fn(int) -> bool, q: spec_fn(int) -> bool, n: int, m: int)
    requires
        0 <= m < n,
        !p(m),
        q(m),
        forall|x: int| #![trigger p(x)] #![trigger q(x)] 0 <= x < n && x != m ==> p(x) == q(x),
    ensures
        count_where(q, n) == count_where(p, n) + 1,
    decreases n,
{
    if n - 1 == m {
        lemma_count_ext(p, q, n - 1);
    } else {
        lemma_count_add(p, q, n - 1, m);
    }
}

proof fn lemma_count_strict(p: spec_fn(int) -> bool, q: spec_fn(int) -> bool, n: int, w: int)
    requires
        0 <= w < n,
        !p(w),
        q(w),
        forall|x: int| #![trigger p(x)] #![trigger q(x)] 0 <= x < n && p(x) ==> q(x),
    ensures
        count_where(p, n) < count_where(q, n),
    decreases n,
{
    if n - 1 == w {
        lemma_count_mono(p, q, n - 1);
    } else {
        lemma_count_strict(p, q, n - 1, w);
    }
}

proof fn lemma_count_mono(p: spec_fn(int) -> bool, q: spec_fn(int) -> bool, n: int)
    requires
        forall|x: int| #![trigger p(x)] #![trigger q(x)] 0 <= x < n && p(x) ==> q(x),
    ensures
        count_where(p, n) <= count_where(q, n),
    decreases n,
{
    if n > 0 {
        lemma_count_mono(p, q, n - 1);
    }
}

/// Distinct edits have distinct ranks, below the number of edits.
pub proof fn lemma_rank_distinct(offs: Seq<u64>, i: int, j: int)
    requires
        0 <= i < offs.len(),
        0 <= j < offs.len(),
        i != j,
    ensures
        insertion_rank(offs, i) != insertion_rank(offs, j),
        precedes(offs, i, j) ==> insertion_rank(offs, i) < insertion_rank(offs, j),
        insertion_rank(offs, i) < offs.len(),
{
    let n = offs.len() as int;
    let pi = |x: int| precedes(offs, x, i);
    let pj = |x: int| precedes(offs, x, j);
    if precedes(offs, i, j) {
        lemma_count_strict(pi, pj, n, i);
    } else {
        lemma_count_strict(pj, pi, n, j);
    }
    lemma_rank_bound(offs, i);
}

proof fn lemma_count_none(p: spec_fn(int) -> bool, n: int)
    requires
        forall|x: int| 0 <= x < n ==> !#[trigger] p(x),
    ensures
        count_where(p, n) == 0,
    decreases n,
{
    if n > 0 {
        lemma_count_none(p, n - 1);
    }
}

proof fn lemma_count_missing(p: spec_fn(int) -> bool, n: int, x: int)
    requires
        0 <= x < n,
        !p(x),
    ensures
        count_where(p, n) < n,
    decreases n,
{
    if n - 1 == x {
        lemma_count_bound(p, n - 1);
    } else {
        lemma_count_missing(p, n - 1, x);
    }
}

proof fn lemma_rank_bound(offs: Seq<u64>, i: int)
    requires
        0 <= i < offs.len(),
    ensures
        insertion_rank(offs, i) < offs.len(),
{
    let n = offs.len() as int;
    let pi = |x: int| precedes(offs, x, i);
    let others = |x: int| x != i;
    lemma_count_mono(pi, others, n);
    lemma_count_missing(others, n, i);
}

/// Corrects the offsets of the edits in place, each lowered by one for each
/// earlier edit found at a smaller offset, and pairs each edit with its
/// position when all edits are ordered by their offsets as given (ties: the later
/// edit first).
pub fn correct_offsets(edits: &mut Vec<(u64, u8)>) -> (r: Vec<((u64, u8), usize)>)
    ensures
        final(edits)@.len() == old(edits)@.len(),
        r@.len() == old(edits)@.len(),
        forall|i: int|
            0 <= i < old(edits)@.len() ==> #[trigger] final(edits)@[i] == (
                corrected_offset(offsets_of(old(edits)@), i) as u64,
                old(edits)@[i].1,
            ),
        forall|i: int|
            0 <= i < old(edits)@.len() ==> #[trigger] r@[i] == (
                final(edits)@[i],
                insertion_rank(offsets_of(old(edits)@), i) as usize,
            ),
        forall|q: int| 0 <= q < old(edits)@.len() ==> #[trigger] rank_taken(offsets_of(old(edits)@), q),
{
    let ghost offs = offsets_of(edits@);
    let n = edits.len();
    let mut insertion_indexes: Vec<usize> = Vec::new();
    for k in 0..n
        invariant
            insertion_indexes@.len() == k,
            forall|x: int| 0 <= x < k ==> insertion_indexes@[x] == usize::MAX,
    {
        insertion_indexes.push(usize::MAX);
    }
    assert(count_where(|x: int| insertion_indexes@[x] != usize::MAX, n as int) == 0) by {
        lemma_count_none(|x: int| insertion_indexes@[x] != usize::MAX, n as int);
    }
    for i in 0..n
        invariant
            n == edits@.len(),
            offs == offsets_of(edits@),
            insertion_indexes@.len() == n,
            count_where(|x: int| insertion_indexes@[x] != usize::MAX, n as int) == i,
            forall|x: int, y: int|
                0 <= x < n && 0 <= y < n && insertion_indexes@[y] != usize::MAX && #[trigger] precedes(
                    offs,
                    x,
                    y,
                ) ==> insertion_indexes@[x] != usize::MAX,
            forall|x: int|
                0 <= x < n && #[trigger] insertion_indexes@[x] != usize::MAX ==> insertion_indexes@[x]
                    == insertion_rank(offs, x),
            forall|q: int| 0 <= q < i ==> #[trigger] rank_taken(offs, q),
    {
        let ghost ins = insertion_indexes@;
        let ghost assigned = |x: int| ins[x] != usize::MAX;
        let mut min: u64 = u64::MAX;
        let mut min_index: usize = usize::MAX;
        for j in 0..n
            invariant
                n == edits@.len(),
                offs == offsets_of(edits@),
                ins == insertion_indexes@,
                ins.len() == n,
                min_index == usize::MAX ==> min == u64::MAX,
                min_index == usize::MAX ==> forall|x: int| 0 <= x < j ==> #[trigger] ins[x] != usize::MAX,
                min_index != usize::MAX ==> {
                    &&& min_index < j
                    &&& ins[min_index as int] == usize::MAX
                    &&& min == offs[min_index as int]
                    &&& forall|x: int|
                        0 <= x < j && #[trigger] ins[x] == usize::MAX && x != min_index ==> precedes(
                            offs,
                            min_index as int,
                            x,
                        )
                },
        {
            if insertion_indexes[j] == usize::MAX && edits[j].0 <= min {
                min = edits[j].0;
                min_index = j;
            }
        }
        proof {
            lemma_count_bound(assigned, n as int);
        }
        assert(min_index != usize::MAX);
        let ghost m = min_index as int;
        proof {
            let below_m = |x: int| precedes(offs, x, m);
            assert forall|x: int| 0 <= x < n implies #[trigger] below_m(x) == assigned(x) by {
                if below_m(x) && !assigned(x) {
                    assert(x != m);
                    assert(precedes(offs, m, x));
                }
                if assigned(x) && !below_m(x) {
                    assert(x != m);
                    assert(precedes(offs, m, x));
                }
            }
            lemma_count_ext(below_m, assigned, n as int);
            assert(insertion_rank(offs, m) == i);
        }
        insertion_indexes.set(min_index, i);
        proof {
            let now = |x: int| insertion_indexes@[x] != usize::MAX;
            lemma_count_add(assigned, now, n as int, m);
            assert forall|q: int| 0 <= q < i + 1 implies #[trigger] rank_taken(offs, q) by {
                if q == i {
                    assert(insertion_rank(offs, m) == q);
                }
            }
        }
    }
    let ghost ranks = insertion_indexes@;
    proof {
        assert forall|x: int| 0 <= x < n implies #[trigger] ranks[x] != usize::MAX by {
            if ranks[x] == usize::MAX {
                lemma_count_missing(|y: int| ranks[y] != usize::MAX, n as int, x);
            }
        }
    }
    let mut offsets: Vec<u64> = Vec::new();
    for k in 0..n
        invariant
            n == edits@.len(),
            offs == offsets_of(edits@),
            offsets@.len() == k,
            forall|x: int| 0 <= x < k ==> offsets@[x] == offs[x],
    {
        offsets.push(edits[k].0);
    }
    assert(offsets@ =~= offs);
    let ghost old_edits = edits@;
    for i in 0..n
        invariant
            n == edits@.len(),
            offs == offsets_of(old_edits),
            offsets@ == offs,
            n == old_edits.len(),
            forall|x: int|
                0 <= x < i ==> #[trigger] edits@[x] == (corrected_offset(offs, x) as u64, old_edits[x].1),
            forall|x: int| i <= x < n ==> #[trigger] edits@[x] == old_edits[x],
    {
        let mut item = edits[i];
        for k in 0..i
            invariant
                offsets@ == offs,
                i < offs.len(),
                item.1 == old_edits[i as int].1,
                item.0 == shifted_offset(offs, offs[i as int] as int, k as int),
                0 <= shifted_offset(offs, offs[i as int] as int, k as int),
        {
            if offsets[k] < item.0 {
                item.0 = item.0 - 1;
            }
        }
        edits.set(i, item);
    }
    let mut r: Vec<((u64, u8), usize)> = Vec::new();
    for i in 0..n
        invariant
            n == edits@.len(),
            insertion_indexes@ == ranks,
            ranks.len() == n,
            r@.len() == i,
            forall|x: int| 0 <= x < i ==> #[trigger] r@[x] == (edits@[x], ranks[x]),
    {
        r.push((edits[i], insertion_indexes[i]));
    }
    r
}

// ---------------------------------------------------------------------------
// One file: the checksum after each prefix of its edits
// ---------------------------------------------------------------------------

/// A file and the edits made to it, in the order they were made: each edit
/// inserts a byte at an offset.
pub struct Input {
    pub filename: String,
    pub edits: Vec<(u64, u8)>,
}

/// The edit indices in order of rank.
pub open spec fn rank_order(offs: Seq<u64>) -> Seq<int> {
    Seq::new(
        offs.len(),
        |q: int| choose|i: int| 0 <= i < offs.len() && insertion_rank(offs, i) == q,
    )
}

/// The corrected edits among the first `k`, taken in the order `order`.
pub open spec fn round_upto(edits: Seq<(u64, u8)>, order: Seq<int>, k: int) -> Seq<(u64, u8)>
    decreases order.len(),
{
    if order.len() == 0 {
        seq![]
    } else {
        let s = round_upto(edits, order.drop_last(), k);
        let j = order.last();
        if j < k {
            s.push((corrected_offset(offsets_of(edits), j) as u64, edits[j].1))
        } else {
            s
        }
    }
}

/// The edits of round `k`: the first `k` edits, with corrected offsets, in
/// order of rank.
pub open spec fn round_edits(edits: Seq<(u64, u8)>, k: int) -> Seq<(u64, u8)> {
    round_upto(edits, rank_order(offsets_of(edits)), k)
}

/// The offsets never decrease along the edits.
pub open spec fn nondecreasing(e: Seq<(u64, u8)>) -> bool {
    forall|j: int, k: int| 0 <= j < k < e.len() ==> (#[trigger] e[j]).0 <= (#[trigger] e[k]).0
}

/// Every round can be hashed: no corrected offset passes the end of the
/// file, and in every round the offsets never decrease.
pub open spec fn edits_fit(edits: Seq<(u64, u8)>, size: int) -> bool {
    &&& forall|i: int|
        0 <= i < edits.len() ==> #[trigger] corrected_offset(offsets_of(edits), i) <= size
    &&& forall|k: int| 0 <= k <= edits.len() ==> nondecreasing(#[trigger] round_edits(edits, k))
}

/// The line for round `k`: the file name, the round, and the checksum of
/// the file after the round's edits, in eight lowercase hex digits.
pub open spec fn round_line(name: Seq<char>, k: int, size: int, edits: Seq<(u64, u8)>) -> Seq<char> {
    name + seq![' '] + decimal(k as nat) + seq![':', ' '] + hex8(
        crc32(assemble(size, round_edits(edits, k))),
    )
}

/// Lines joined with newlines.
pub open spec fn join_lines(lines: Seq<Seq<char>>) -> Seq<char>
    decreases lines.len(),
{
    if lines.len() == 0 {
        seq![]
    } else if lines.len() == 1 {
        lines[0]
    } else {
        join_lines(lines.drop_last()) + seq!['\n'] + lines.last()
    }
}

/// The text for a file: the lines of rounds `0..=n`.
pub open spec fn report(name: Seq<char>, size: int, edits: Seq<(u64, u8)>) -> Seq<char> {
    join_lines(Seq::new((edits.len() + 1) as nat, |k: int| round_line(name, k, size, edits)))
}

proof fn lemma_round_offsets(edits: Seq<(u64, u8)>, order: Seq<int>, k: int)
    requires
        forall|t: int| 0 <= t < order.len() ==> 0 <= #[trigger] order[t] < edits.len(),
    ensures
        round_upto(edits, order, k).len() <= order.len(),
        forall|t: int|
            0 <= t < round_upto(edits, order, k).len() ==> exists|j: int|
                0 <= j < edits.len() && (#[trigger] round_upto(edits, order, k)[t]).0
                    == corrected_offset(offsets_of(edits), j) as u64,
    decreases order.len(),
{
    if order.len() > 0 {
        let d = order.drop_last();
        assert forall|t: int| 0 <= t < d.len() implies 0 <= #[trigger] d[t] < edits.len() by {
            assert(d[t] == order[t]);
        }
        lemma_round_offsets(edits, d, k);
        let s = round_upto(edits, d, k);
        let r = round_upto(edits, order, k);
        assert forall|t: int| 0 <= t < r.len() implies exists|j: int|
            0 <= j < edits.len() && (#[trigger] r[t]).0 == corrected_offset(offsets_of(edits), j)
                as u64 by {
            if t < s.len() {
                assert(r[t] == s[t]);
            } else {
                assert(order.last() == order[order.len() - 1]);
            }
        }
    }
}

/// Whether no corrected offset passes `size`.
fn offsets_within(edits: &Vec<((u64, u8), usize)>, size: u64, offs: Ghost<Seq<u64>>) -> (r: bool)
    requires
        edits@.len() == offs@.len(),
        forall|x: int|
            0 <= x < edits@.len() ==> (#[trigger] edits@[x]).0.0 == corrected_offset(offs@, x) as u64,
    ensures
        r == forall|x: int| 0 <= x < edits@.len() ==> #[trigger] corrected_offset(offs@, x) <= size,
{
    for i in 0..edits.len()
        invariant
            edits@.len() == offs@.len(),
            forall|x: int|
                0 <= x < edits@.len() ==> (#[trigger] edits@[x]).0.0 == corrected_offset(offs@, x) as u64,
            forall|x: int| 0 <= x < i ==> #[trigger] corrected_offset(offs@, x) <= size,
    {
        proof {
            lemma_shifted_nonneg(offs@, offs@[i as int] as int, i as int);
        }
        if (edits[i].0).0 > size {
            assert(!(corrected_offset(offs@, i as int) <= size));
            return false;
        }
    }
    true
}

/// The edit index of each rank.
fn indices_by_rank(edits: &Vec<((u64, u8), usize)>, offs: Ghost<Seq<u64>>) -> (by_rank: Vec<usize>)
    requires
        edits@.len() == offs@.len(),
        forall|x: int| 0 <= x < edits@.len() ==> (#[trigger] edits@[x]).1 == insertion_rank(offs@, x) as usize,
        forall|q: int| 0 <= q < offs@.len() ==> #[trigger] rank_taken(offs@, q),
    ensures
        by_rank@.len() == offs@.len(),
        forall|q: int| 0 <= q < offs@.len() ==> by_rank@[q] == rank_order(offs@)[q],
        forall|q: int| 0 <= q < offs@.len() ==> 0 <= #[trigger] rank_order(offs@)[q] < offs@.len(),
{
    let n = edits.len();
    let mut by_rank: Vec<usize> = Vec::new();
    for q in 0..n
        invariant
            by_rank@.len() == q,
    {
        by_rank.push(0);
    }
    for j in 0..n
        invariant
            n == offs@.len(),
            edits@.len() == n,
            by_rank@.len() == n,
            forall|x: int| 0 <= x < n ==> (#[trigger] edits@[x]).1 == insertion_rank(offs@, x) as usize,
            forall|x: int| 0 <= x < j ==> by_rank@[#[trigger] insertion_rank(offs@, x) as int] == x,
    {
        proof {
            lemma_rank_bound(offs@, j as int);
        }
        let q = edits[j].1;
        by_rank.set(q, j);
        proof {
            assert forall|x: int| 0 <= x < j + 1 implies by_rank@[#[trigger] insertion_rank(offs@, x) as int] == x by {
                if x < j {
                    lemma_rank_distinct(offs@, x, j as int);
                }
            }
        }
    }
    proof {
        let order = rank_order(offs@);
        assert forall|q: int| 0 <= q < n implies by_rank@[q] == order[q] && 0 <= #[trigger] order[q] < n by {
            assert(rank_taken(offs@, q));
            let i = choose|i: int| 0 <= i < offs@.len() && insertion_rank(offs@, i) == q;
            let c = order[q];
            assert(0 <= c < n && insertion_rank(offs@, c) == q);
            if c != i {
                lemma_rank_distinct(offs@, c, i);
            }
        }
    }
    by_rank
}

/// The edits of round `k` (see `round_edits`).
fn round(
    edits: &Vec<((u64, u8), usize)>,
    by_rank: &Vec<usize>,
    k: usize,
    orig: Ghost<Seq<(u64, u8)>>,
) -> (e: Vec<(u64, u8)>)
    requires
        edits@.len() == orig@.len(),
        by_rank@.len() == orig@.len(),
        forall|x: int|
            0 <= x < orig@.len() ==> (#[trigger] edits@[x]).0 == (
                corrected_offset(offsets_of(orig@), x) as u64,
                orig@[x].1,
            ),
        forall|q: int| 0 <= q < orig@.len() ==> by_rank@[q] == rank_order(offsets_of(orig@))[q],
        forall|q: int| 0 <= q < orig@.len() ==> 0 <= #[trigger] rank_order(offsets_of(orig@))[q] < orig@.len(),
    ensures
        e@ == round_edits(orig@, k as int),
{
    let ghost order = rank_order(offsets_of(orig@));
    let n = edits.len();
    let mut e: Vec<(u64, u8)> = Vec::new();
    assert(order.take(0) =~= Seq::<int>::empty());
    for q in 0..n
        invariant
            n == orig@.len(),
            order == rank_order(offsets_of(orig@)),
            order.len() == n,
            edits@.len() == n,
            by_rank@.len() == n,
            forall|x: int|
                0 <= x < n ==> (#[trigger] edits@[x]).0 == (
                    corrected_offset(offsets_of(orig@), x) as u64,
                    orig@[x].1,
                ),
            forall|t: int| 0 <= t < n ==> by_rank@[t] == order[t],
            forall|t: int| 0 <= t < n ==> 0 <= #[trigger] order[t] < n,
            e@ == round_upto(orig@, order.take(q as int), k as int),
    {
        let j = by_rank[q];
        proof {
            assert(order.take(q + 1).drop_last() =~= order.take(q as int));
            assert(order.take(q + 1).last() == order[q as int]);
        }
        if j < k {
            e.push(edits[j].0);
        }
    }
    assert(order.take(n as int) =~= order);
    e
}

/// Appends the line of round `k` to the text.
fn push_line(text: &mut String, name: &String, k: usize, checksum: u32)
    ensures
        final(text)@ == old(text)@ + name@ + seq![' '] + decimal(k as nat) + seq![':', ' '] + hex8(checksum),
{
    text.append(name.as_str());
    push_char(text, ' ');
    push_decimal(text, k as u64);
    push_char(text, ':');
    push_char(text, ' ');
    push_hex8(text, checksum);
}

/// The report for one file of `size` zero bytes: corrects the edits'
/// offsets in place, then gives the line of each round `0..=n` (round `k`
/// applies the first `k` edits), joined with newlines; `None` where a round
/// cannot be hashed (see `edits_fit`).
pub fn process(input: &mut Input, size: u64, gb: &Hasher, mb: &Hasher) -> (r: Option<String>)
    requires
        hashed_bytes(*gb) == zeros(GB as int),
        hashed_bytes(*mb) == zeros(MB as int),
        size + old(input).edits@.len() <= u64::MAX,
        old(input).edits@.len() < usize::MAX,
    ensures
        final(input).filename == old(input).filename,
        final(input).edits@.len() == old(input).edits@.len(),
        forall|i: int|
            0 <= i < old(input).edits@.len() ==> #[trigger] final(input).edits@[i] == (
                corrected_offset(offsets_of(old(input).edits@), i) as u64,
                old(input).edits@[i].1,
            ),
        r is Some <==> edits_fit(old(input).edits@, size as int),
        r matches Some(text) ==> text@ == report(
            old(input).filename@,
            size as int,
            old(input).edits@,
        ),
{
    let ghost orig = input.edits@;
    let ghost offs = offsets_of(orig);
    let n = input.edits.len();
    let edits = correct_offsets(&mut input.edits);
    let ghost fixed = *input;
    if !offsets_within(&edits, size, Ghost(offs)) {
        return None;
    }
    assert forall|x: int| 0 <= x < edits@.len() implies (#[trigger] edits@[x]).0.0 <= size by {
        assert(corrected_offset(offs, x) <= size);
        lemma_shifted_nonneg(offs, offs[x] as int, x);
    }
    let blocks = hash_blocks(size, &edits, gb, mb);
    let by_rank = indices_by_rank(&edits, Ghost(offs));
    proof {
        lemma_blocks_end(blocks@, size as int);
    }
    let ghost name = input.filename@;
    let ghost f = |k: int| round_line(name, k, size as int, orig);
    let mut text = String::new();
    let mut i: usize = 0;
    assert(Seq::new(0, f) =~= Seq::<Seq<char>>::empty());
    while i <= n
        invariant
            *input == fixed,
            fixed.filename == old(input).filename,
            orig == old(input).edits@,
            fixed.edits@.len() == orig.len(),
            forall|x: int|
                0 <= x < orig.len() ==> #[trigger] fixed.edits@[x] == (
                    corrected_offset(offsets_of(orig), x) as u64,
                    orig[x].1,
                ),
            n == orig.len(),
            offs == offsets_of(orig),
            name == input.filename@,
            f == (|k: int| round_line(name, k, size as int, orig)),
            edits@.len() == n,
            forall|x: int|
                0 <= x < n ==> (#[trigger] edits@[x]).0 == (corrected_offset(offs, x) as u64, orig[x].1),
            forall|x: int| 0 <= x < n ==> #[trigger] corrected_offset(offs, x) <= size,
            by_rank@.len() == n,
            forall|q: int| 0 <= q < n ==> by_rank@[q] == rank_order(offs)[q],
            forall|q: int| 0 <= q < n ==> 0 <= #[trigger] rank_order(offs)[q] < n,
            blocks_ok(blocks@, size as int),
            blocks_end(blocks@) == size,
            forall|x: int|
                is_block_end(blocks@, x) <==> (x != 0 && (x == size || exists|t: int|
                    0 <= t < edits@.len() && (#[trigger] edits@[t]).0.0 == x)),
            size + n <= u64::MAX,
            n < usize::MAX,
            i <= n + 1,
            forall|k: int| 0 <= k < i ==> nondecreasing(#[trigger] round_edits(orig, k)),
            text@ == join_lines(Seq::new(i as nat, f)),
        decreases n + 1 - i,
    {
        let e = round(&edits, &by_rank, i, Ghost(orig));
        proof {
            lemma_round_offsets(orig, rank_order(offs), i as int);
            assert forall|t: int| 0 <= t < e@.len() implies ((#[trigger] e@[t]).0 == 0 || is_block_end(
                blocks@,
                e@[t].0 as int,
            )) by {
                let j = choose|j: int|
                    0 <= j < orig.len() && (#[trigger] round_upto(orig, rank_order(offs), i as int)[t]).0
                        == corrected_offset(offsets_of(orig), j) as u64;
                assert(edits@[j].0.0 == e@[t].0);
            }
        }
        let fits = walk_fits(&e, &blocks);
        proof {
            reveal(walk_ok);
            assert(fits == nondecreasing(e@));
        }
        if !fits {
            assert(!nondecreasing(round_edits(orig, i as int)));
            return None;
        }
        let checksum = hash(&e, &blocks);
        let ghost before = text@;
        if i > 0 {
            push_char(&mut text, '\n');
        }
        push_line(&mut text, &input.filename, i, checksum);
        proof {
            let lines = Seq::new((i + 1) as nat, f);
            assert(lines.drop_last() =~= Seq::new(i as nat, f));
            assert(lines.last() == f(i as int));
            if i == 0 {
                assert(before =~= Seq::<char>::empty());
                assert(text@ =~= f(0));
            } else {
                assert(text@ =~= before + seq!['\n'] + f(i as int));
            }
        }
        i = i + 1;
    }
    Some(text)
}

proof fn lemma_shifted_nonneg(offs: Seq<u64>, v: int, upto: int)
    requires
        v >= 0,
    ensures
        0 <= shifted_offset(offs, v, upto) <= v,
    decreases upto,
{
    if upto > 0 {
        lemma_shifted_nonneg(offs, v, upto - 1);
    }
}

proof fn lemma_blocks_end(blocks: Seq<HashBlock>, size: int)
    requires
        blocks_ok(blocks, size),
    ensures
        blocks_end(blocks) == size,
{
    reveal(blocks_ok);
}


// ---------------------------------------------------------------------------
// Reading the input
// ---------------------------------------------------------------------------

/// What a file's edits stand for.
pub struct InputModel {
    pub filename: Seq<char>,
    pub edits: Seq<(u64, u8)>,
}

impl View for Input {
    type V = InputModel;

    open spec fn view(&self) -> InputModel {
        InputModel { filename: self.filename@, edits: self.edits@ }
    }
}

/// A file's header line: its name, then the number of edits (a negative
/// number announces none).
pub open spec fn file_header(line: Seq<char>) -> Option<(Seq<char>, i32)> {
    let w = split_on(line, ' ');
    if w.len() < 2 {
        None
    } else {
        match parsed_i32(w[1]) {
            Some(n) => Some((w[0], n)),
            None => None,
        }
    }
}

/// The number of edit lines that a header announces.
pub open spec fn announced_edits(n: i32) -> int {
    if n < 0 {
        0
    } else {
        n as int
    }
}

/// An edit line: the offset, then the byte.
pub open spec fn parse_edit(line: Seq<char>) -> Option<(u64, u8)> {
    let w = split_on(line, ' ');
    if w.len() < 2 {
        None
    } else {
        match (parsed_u64(w[0]), parsed_u8(w[1])) {
            (Some(o), Some(b)) => Some((o, b)),
            _ => None,
        }
    }
}

/// The files from line `pos` on: a header line, then one line per edit;
/// `None` where a line is missing or malformed.
pub open spec fn parse_files(lines: Seq<Seq<char>>, pos: int) -> Option<Seq<InputModel>>
    decreases lines.len() - pos,
{
    if pos < 0 || pos >= lines.len() {
        Some(seq![])
    } else {
        match file_header(lines[pos]) {
            None => None,
            Some(h) => {
                let k = announced_edits(h.1);
                if pos + 1 + k > lines.len() {
                    None
                } else if exists|j: int| 0 <= j < k && (#[trigger] parse_edit(lines[pos + 1 + j])) is None {
                    None
                } else {
                    match parse_files(lines, pos + 1 + k) {
                        None => None,
                        Some(rest) => Some(
                            seq![
                                InputModel {
                                    filename: h.0,
                                    edits: Seq::new(k as nat, |j: int| parse_edit(lines[pos + 1 + j])->0),
                                },
                            ] + rest,
                        ),
                    }
                }
            },
        }
    }
}

fn parse_edit_line(line: &Vec<char>) -> (r: Option<(u64, u8)>)
    ensures
        r == parse_edit(line@),
{
    let w = split(line, ' ');
    if w.len() < 2 {
        return None;
    }
    match (parse_u64(&w[0]), parse_u8(&w[1])) {
        (Some(o), Some(b)) => Some((o, b)),
        _ => None,
    }
}

/// The files of an input file, all its lines given: each is a header line
/// followed by one line per edit.
pub fn parse_input(lines: &Vec<String>) -> (r: Option<Vec<Input>>)
    ensures
        match r {
            Some(inputs) => parse_files(lines@.map_values(|l: String| l@), 0) == Some(
                inputs@.map_values(|i: Input| i@),
            ),
            None => parse_files(lines@.map_values(|l: String| l@), 0) is None,
        },
{
    let ghost text = lines@.map_values(|l: String| l@);
    let mut chars: Vec<Vec<char>> = Vec::new();
    for k in 0..lines.len()
        invariant
            text == lines@.map_values(|l: String| l@),
            chars@.len() == k,
            forall|t: int| 0 <= t < k ==> (#[trigger] chars@[t])@ == text[t],
    {
        chars.push(chars_of(lines[k].as_str()));
    }
    let mut inputs: Vec<Input> = Vec::new();
    let mut pos: usize = 0;
    assert(inputs@.map_values(|i: Input| i@) + parse_files(text, 0)->0 =~= parse_files(text, 0)->0);
    while pos < chars.len()
        invariant
            text == lines@.map_values(|l: String| l@),
            chars@.len() == text.len(),
            forall|t: int| 0 <= t < text.len() ==> (#[trigger] chars@[t])@ == text[t],
            parse_files(text, 0) == match parse_files(text, pos as int) {
                Some(rest) => Some(inputs@.map_values(|i: Input| i@) + rest),
                None => None::<Seq<InputModel>>,
            },
        decreases chars@.len() - pos,
    {
        let words = split(&chars[pos], ' ');
        assert(chars@[pos as int]@ == text[pos as int]);
        if words.len() < 2 {
            return None;
        }
        let n = match parse_i32(&words[1]) {
            Some(v) => v,
            None => {
                return None;
            },
        };
        let name = string_of(&words[0]);
        assert(file_header(text[pos as int]) == Some((name@, n)));
        let k: usize = if n < 0 {
            0
        } else {
            n as usize
        };
        if k > chars.len() - pos - 1 {
            return None;
        }
        let mut edits: Vec<(u64, u8)> = Vec::new();
        let nlines = chars.len();
        for j in 0..k
            invariant
                text == lines@.map_values(|l: String| l@),
                nlines == chars@.len(),
                pos < chars@.len(),
                file_header(text[pos as int]) == Some((name@, n)),
                k == announced_edits(n),
                parse_files(text, 0) == match parse_files(text, pos as int) {
                    Some(rest) => Some(inputs@.map_values(|i: Input| i@) + rest),
                    None => None::<Seq<InputModel>>,
                },
                chars@.len() == text.len(),
                forall|t: int| 0 <= t < text.len() ==> (#[trigger] chars@[t])@ == text[t],
                pos + 1 + k <= chars@.len(),
                edits@.len() == j,
                forall|t: int|
                    0 <= t < j ==> parse_edit(text[pos + 1 + t]) == Some(#[trigger] edits@[t]),
        {
            match parse_edit_line(&chars[pos + 1 + j]) {
                Some(e) => {
                    edits.push(e);
                },
                None => {
                    assert(parse_edit(text[pos + 1 + j as int]) is None);
                    return None;
                },
            }
        }
        let ghost case = InputModel {
            filename: name@,
            edits: Seq::new(k as nat, |j: int| parse_edit(text[pos + 1 + j])->0),
        };
        proof {
            assert(edits@ =~= case.edits);
            assert forall|j: int| 0 <= j < k implies (#[trigger] parse_edit(text[pos + 1 + j])) is Some by {
                assert(parse_edit(text[pos + 1 + j]) == Some(edits@[j]));
            }
        }
        let ghost before = inputs@.map_values(|i: Input| i@);
        inputs.push(Input { filename: name, edits });
        proof {
            assert(inputs@.map_values(|i: Input| i@) =~= before.push(case));
            match parse_files(text, pos + 1 + k) {
                Some(rest) => {
                    assert(before + (seq![case] + rest) =~= before.push(case) + rest);
                },
                None => {},
            }
        }
        pos = pos + 1 + k;
    }
    proof {
        let v = inputs@.map_values(|i: Input| i@);
        assert(v + seq![] =~= v);
    }
    Some(inputs)
}

} // verus!
