//! Byte-interval arithmetic aligned to the 1024-byte chunk grid.

use crate::CHUNK_SIZE;
use vstd::prelude::*;

verus! {

/// A contiguous byte interval of a stream: `offset` and `length` in bytes.
///
/// The engine only produces intervals whose offset is a multiple of
/// [`CHUNK_SIZE`]; the trailing chunk of a stream may be shorter than a full
/// chunk.
#[derive(Clone, Copy, Debug, PartialEq, Eq, Structural)]
pub struct Range {
    pub offset: u64,
    pub length: u64,
}

/// `i` is a positive power of two.
pub open spec fn is_pow2(i: int) -> bool
    decreases i,
{
    if i < 1 {
        false
    } else if i == 1 {
        true
    } else {
        i % 2 == 0 && is_pow2(i / 2)
    }
}

/// The largest power of two that is at most `n` (and 1 when `n < 1`).
pub open spec fn largest_pow2_le(n: int) -> int
    decreases n,
{
    if n < 2 {
        1
    } else {
        2 * largest_pow2_le(n / 2)
    }
}

/// A power of two `i` with `i <= n < 2 * i` is the largest power of two at
/// most `n`.
pub proof fn lemma_pow2_bounds(i: int, n: int)
    requires
        is_pow2(i),
        i <= n,
        n < 2 * i,
    ensures
        largest_pow2_le(n) == i,
    decreases i,
{
    if i == 1 {
    } else {
        lemma_pow2_bounds(i / 2, n / 2);
    }
}

/// The largest power of two at most `n` is a power of two bounded by `n`.
pub proof fn lemma_largest_pow2_le(n: int)
    requires
        n >= 1,
    ensures
        is_pow2(largest_pow2_le(n)),
        largest_pow2_le(n) <= n,
        n < 2 * largest_pow2_le(n),
    decreases n,
{
    if n >= 2 {
        lemma_largest_pow2_le(n / 2);
    }
}

/// Distinct powers of two are at least a factor of two apart.
pub proof fn lemma_pow2_double(a: int, b: int)
    requires
        is_pow2(a),
        is_pow2(b),
        a < b,
    ensures
        2 * a <= b,
    decreases b,
{
    if a >= 2 {
        lemma_pow2_double(a / 2, b / 2);
    }
}

/// Dividing by the chunk size distributes over a chunk-aligned sum.
pub proof fn lemma_div_add_aligned(x: int, y: int)
    requires
        x % (CHUNK_SIZE as int) == 0,
    ensures
        (x + y) / (CHUNK_SIZE as int) == x / (CHUNK_SIZE as int) + y / (CHUNK_SIZE as int),
{
    assert((x + y) / (CHUNK_SIZE as int) == x / (CHUNK_SIZE as int) + y / (CHUNK_SIZE as int))
        by (nonlinear_arith)
        requires
            x % (CHUNK_SIZE as int) == 0,
            CHUNK_SIZE == 1024,
    ;
}

/// Joining a left half that spans a power-of-two count of full chunks with
/// a right remainder of at most as many bytes splits back into exactly
/// those halves.
pub proof fn lemma_combined_split(left: Range, right: Range)
    requires
        left.wf(),
        right.wf(),
        left.spec_end() == right.offset,
        CHUNK_SIZE <= left.length,
        left.length as int % (CHUNK_SIZE as int) == 0,
        is_pow2(left.length as int / (CHUNK_SIZE as int)),
        1 <= right.length <= left.length,
    ensures
        (Range { offset: left.offset, length: (left.length + right.length) as u64 }).spec_split()
            == Some((left, right)),
{
    let c = left.length as int / (CHUNK_SIZE as int);
    assert(left.length == c * CHUNK_SIZE) by (nonlinear_arith)
        requires
            left.length as int % (CHUNK_SIZE as int) == 0,
            c == left.length as int / (CHUNK_SIZE as int),
            CHUNK_SIZE == 1024,
    ;
    let total = (left.length + right.length) as int;
    let n = (total - 1) / (CHUNK_SIZE as int);
    assert(c <= n < 2 * c) by (nonlinear_arith)
        requires
            left.length == c * CHUNK_SIZE,
            1 <= right.length <= left.length,
            CHUNK_SIZE == 1024,
            total == left.length + right.length,
            n == (total - 1) / (CHUNK_SIZE as int),
            c >= 1,
    ;
    lemma_pow2_bounds(c, n);
}

/// Both halves of a split are strictly shorter than the whole, whatever the
/// interval's offset.
pub proof fn lemma_split_lengths(r: Range)
    requires
        r.length > CHUNK_SIZE,
    ensures
        r.spec_split() is Some,
        ({
            let p = r.spec_split().unwrap();
            &&& CHUNK_SIZE <= p.0.length < r.length
            &&& 1 <= p.1.length < r.length
            &&& p.0.length + p.1.length == r.length
        }),
{
    let n = (r.length - 1) as int / CHUNK_SIZE as int;
    assert(n >= 1 && n * CHUNK_SIZE <= r.length - 1) by (nonlinear_arith)
        requires
            r.length > CHUNK_SIZE,
            CHUNK_SIZE == 1024,
            n == (r.length - 1) as int / CHUNK_SIZE as int,
    ;
    lemma_largest_pow2_le(n);
    let i = largest_pow2_le(n);
    assert(CHUNK_SIZE <= i * CHUNK_SIZE <= n * CHUNK_SIZE) by (nonlinear_arith)
        requires
            1 <= i <= n,
            CHUNK_SIZE == 1024,
    ;
}

/// Geometry of the Bao split: the left half starts where the interval does
/// and spans a power-of-two count of full chunks, the right half is the
/// nonempty remainder, and the chunk counts add up.
pub proof fn lemma_split_parts(r: Range)
    requires
        r.wf(),
        r.length > CHUNK_SIZE,
    ensures
        r.spec_split() is Some,
        ({
            let p = r.spec_split().unwrap();
            &&& p.0.offset == r.offset
            &&& CHUNK_SIZE <= p.0.length < r.length
            &&& p.0.length as int % (CHUNK_SIZE as int) == 0
            &&& is_pow2(p.0.length as int / CHUNK_SIZE as int)
            &&& p.0.spec_end() == p.1.offset
            &&& p.1.spec_end() == r.spec_end()
            &&& p.1.length >= 1
            &&& p.0.wf()
            &&& p.1.wf()
            &&& p.0.spec_num_chunks() == p.0.length as int / CHUNK_SIZE as int
            &&& p.0.spec_num_chunks() + p.1.spec_num_chunks() == r.spec_num_chunks()
            &&& (r.offset as int % (CHUNK_SIZE as int) == 0 ==> p.1.offset as int % (CHUNK_SIZE as int) == 0)
        }),
{
    let n = (r.length - 1) as int / CHUNK_SIZE as int;
    assert(n >= 1) by (nonlinear_arith)
        requires
            r.length > CHUNK_SIZE,
            CHUNK_SIZE == 1024,
            n == (r.length - 1) as int / CHUNK_SIZE as int,
    ;
    lemma_largest_pow2_le(n);
    let i = largest_pow2_le(n);
    let at = i * CHUNK_SIZE;
    assert(n * CHUNK_SIZE <= r.length - 1 && (r.length - 1) < (n + 1) * CHUNK_SIZE)
        by (nonlinear_arith)
        requires
            CHUNK_SIZE == 1024,
            r.length >= 1,
            n == (r.length - 1) as int / CHUNK_SIZE as int,
    ;
    assert(at <= n * CHUNK_SIZE) by (nonlinear_arith)
        requires
            i <= n,
            CHUNK_SIZE == 1024,
            at == i * CHUNK_SIZE,
    ;
    assert(CHUNK_SIZE <= at) by (nonlinear_arith)
        requires
            i >= 1,
            CHUNK_SIZE == 1024,
            at == i * CHUNK_SIZE,
    ;
    let p = r.spec_split().unwrap();
    assert(at % (CHUNK_SIZE as int) == 0) by (nonlinear_arith)
        requires
            at == i * CHUNK_SIZE,
            CHUNK_SIZE == 1024,
    ;
    assert(r.offset as int % (CHUNK_SIZE as int) == 0 ==> (r.offset + at) % (CHUNK_SIZE as int) == 0)
        by (nonlinear_arith)
        requires
            at % (CHUNK_SIZE as int) == 0,
            CHUNK_SIZE == 1024,
    ;
    // Chunk counts: the left half covers exactly `i` chunks.
    assert(p.0.spec_num_chunks() == i) by {
        if i == 1 {
            assert(p.0.spec_is_chunk());
        } else {
            assert(!p.0.spec_is_chunk()) by (nonlinear_arith)
                requires
                    i >= 2,
                    p.0.length == i * CHUNK_SIZE,
                    CHUNK_SIZE == 1024,
            ;
            assert((i * CHUNK_SIZE - 1) as int / CHUNK_SIZE as int == i - 1) by (nonlinear_arith)
                requires
                    i >= 1,
                    CHUNK_SIZE == 1024,
            ;
        }
    }
    // And the right half covers the remaining `n + 1 - i` chunks.
    assert(p.1.spec_num_chunks() == n + 1 - i) by {
        if p.1.length <= CHUNK_SIZE {
            assert(r.length - 1 <= at + CHUNK_SIZE - 1);
            assert(n <= i) by (nonlinear_arith)
                requires
                    n * CHUNK_SIZE <= r.length - 1,
                    r.length - 1 <= at + CHUNK_SIZE - 1,
                    at == i * CHUNK_SIZE,
                    CHUNK_SIZE == 1024,
            ;
        } else {
            assert((r.length - at - 1) as int / CHUNK_SIZE as int == n - i) by (nonlinear_arith)
                requires
                    n * CHUNK_SIZE <= r.length - 1 < (n + 1) * CHUNK_SIZE,
                    at == i * CHUNK_SIZE,
                    i <= n,
                    CHUNK_SIZE == 1024,
            ;
        }
    }
    assert(r.spec_num_chunks() == n + 1);
}

impl Range {
    /// The interval's end does not overflow the 64-bit offset space.
    pub open spec fn wf(self) -> bool {
        self.offset + self.length <= u64::MAX
    }

    /// One-past-the-last byte offset.
    pub open spec fn spec_end(self) -> int {
        self.offset + self.length
    }

    /// Index of the first chunk covered.
    pub open spec fn spec_index(self) -> int {
        self.offset as int / CHUNK_SIZE as int
    }

    /// A chunk interval: at most one chunk of payload.
    pub open spec fn spec_is_chunk(self) -> bool {
        self.length <= CHUNK_SIZE
    }

    /// Number of chunks covered; an empty interval still counts as one
    /// (zero-length streams have a single empty chunk).
    pub open spec fn spec_num_chunks(self) -> int {
        if self.spec_is_chunk() {
            1
        } else {
            (self.length - 1) as int / CHUNK_SIZE as int + 1
        }
    }

    /// Two intervals intersect when they share a byte, or are the same
    /// interval (so an empty interval intersects itself).
    pub open spec fn spec_intersects(self, other: Range) -> bool {
        self == other || (self.spec_end() > other.offset && self.offset < other.spec_end())
    }

    /// Splitting at `i` chunks per the Bao rule: `i` is the largest power of
    /// two at most `(length - 1) / CHUNK_SIZE`, so the left half is always a
    /// power-of-two count of full chunks.
    pub open spec fn spec_split(self) -> Option<(Range, Range)> {
        if self.length > CHUNK_SIZE {
            let n = (self.length - 1) as int / CHUNK_SIZE as int;
            let at = largest_pow2_le(n) * CHUNK_SIZE;
            Some(
                (
                    Range { offset: self.offset, length: at as u64 },
                    Range { offset: (self.offset + at) as u64, length: (self.length - at) as u64 },
                ),
            )
        } else {
            None
        }
    }

    pub fn new(offset: u64, length: u64) -> (r: Range)
        ensures
            r == (Range { offset, length }),
    {
        Range { offset, length }
    }

    pub fn offset(&self) -> (r: u64)
        ensures
            r == self.offset,
    {
        self.offset
    }

    pub fn length(&self) -> (r: u64)
        ensures
            r == self.length,
    {
        self.length
    }

    pub fn end(&self) -> (r: u64)
        requires
            self.wf(),
        ensures
            r == self.spec_end(),
    {
        self.offset + self.length
    }

    pub fn index(&self) -> (r: u64)
        ensures
            r == self.spec_index(),
    {
        self.offset / CHUNK_SIZE
    }

    pub fn num_chunks(&self) -> (r: u64)
        ensures
            r == self.spec_num_chunks(),
    {
        if self.is_chunk() {
            1
        } else {
            (self.length - 1) / CHUNK_SIZE + 1
        }
    }

    pub fn is_chunk(&self) -> (r: bool)
        ensures
            r == self.spec_is_chunk(),
    {
        self.length <= CHUNK_SIZE
    }

    /// Split at `i` chunks when the interval extends past them; the first
    /// half covers exactly `i` full chunks.
    pub fn split_at(&self, i: u64) -> (r: Option<(Range, Range)>)
        requires
            self.wf(),
            i > 0,
            i * CHUNK_SIZE <= u64::MAX,
        ensures
            self.length > i * CHUNK_SIZE ==> r == Some(
                (
                    Range { offset: self.offset, length: (i * CHUNK_SIZE) as u64 },
                    Range {
                        offset: (self.offset + i * CHUNK_SIZE) as u64,
                        length: (self.length - i * CHUNK_SIZE) as u64,
                    },
                ),
            ),
            self.length <= i * CHUNK_SIZE ==> r is None,
    {
        let at = i * CHUNK_SIZE;
        if self.length > at {
            let first = Range::new(self.offset, at);
            let second = Range::new(self.offset + at, self.length - at);
            Some((first, second))
        } else {
            None
        }
    }

    /// Split per the Bao rule; `None` for a chunk interval.
    pub fn split(&self) -> (r: Option<(Range, Range)>)
        requires
            self.wf(),
        ensures
            r == self.spec_split(),
    {
        if self.length > CHUNK_SIZE {
            let n = (self.length - 1) / CHUNK_SIZE;
            let mut i: u64 = 1;
            proof {
                assert(is_pow2(1));
            }
            while 2 * i <= n
                invariant
                    is_pow2(i as int),
                    i <= n,
                    n < 0x8000_0000_0000_0000,
                decreases n - i,
            {
                proof {
                    assert(is_pow2(2 * i as int)) by {
                        assert((2 * i as int) / 2 == i as int);
                    }
                }
                i = 2 * i;
            }
            proof {
                lemma_pow2_bounds(i as int, n as int);
                assert(i * CHUNK_SIZE < self.length) by {
                    assert(i as int <= n as int);
                    assert(n as int * CHUNK_SIZE <= (self.length - 1) as int) by (nonlinear_arith)
                        requires
                            n as int == (self.length - 1) as int / CHUNK_SIZE as int,
                            CHUNK_SIZE == 1024,
                            self.length >= 1,
                    ;
                    assert(i as int * CHUNK_SIZE <= n as int * CHUNK_SIZE) by (nonlinear_arith)
                        requires
                            i as int <= n as int,
                            CHUNK_SIZE == 1024,
                    ;
                }
            }
            self.split_at(i)
        } else {
            None
        }
    }

    /// Grow the interval in place by `amount` bytes.
    pub fn extend(&mut self, amount: u64)
        requires
            old(self).offset + old(self).length + amount <= u64::MAX,
        ensures
            *final(self) == (Range {
                offset: old(self).offset,
                length: (old(self).length + amount) as u64,
            }),
    {
        self.length = self.length + amount;
    }

    pub fn intersects(&self, other: &Range) -> (r: bool)
        requires
            self.wf(),
            other.wf(),
        ensures
            r == self.spec_intersects(*other),
    {
        *self == *other || (self.offset + self.length > other.offset && other.offset
            + other.length > self.offset)
    }

    /// Upper bound on the byte size of a range proof for this interval:
    /// an 8-byte header, one 64-byte parent-hash pair per interior node
    /// (always one less than the chunk count), and the chunk payloads.
    pub fn encoded_size(&self) -> (r: u64)
        requires
            self.wf(),
            8 + 1088 * self.spec_num_chunks() - 64 <= u64::MAX,
        ensures
            r == 8 + 64 * (self.spec_num_chunks() - 1) + CHUNK_SIZE * self.spec_num_chunks(),
    {
        let num_chunks = self.num_chunks();
        let num_parents = num_chunks - 1;
        8 + 64 * num_parents + CHUNK_SIZE * num_chunks
    }
}

} // verus!
