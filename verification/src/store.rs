//! Stream storage: each stream's tree coordinated with its chunk buffer,
//! with insert, lookup, allocation for range absorption, removal and range
//! reads.

use crate::hash::{blake3_hash, blake3_of, hex_encode, spec_hex};
use crate::hasher::{spec_tree_hash, tree_hash};
use crate::mime::{spec_mime_code, Mime};
use crate::range::Range;
use crate::stream_id::{same_id, StreamId};
use crate::tree::{
    matches_chunks, spec_cover_acc, spec_decode_node, spec_encode_node, Tree,
};
use crate::StoreError;
use vstd::bytes::spec_u64_from_le_bytes;
use vstd::bytes::spec_u64_to_le_bytes;
use vstd::prelude::*;

verus! {

/// One stream: its tree plus its chunk buffer — a byte image of the stream
/// in which unverified regions read as zero and are never served.
#[derive(Debug)]
pub struct Stream {
    pub tree: Tree,
    pub chunks: Vec<u8>,
}

impl Stream {
    /// The chunk buffer spans exactly the stream's length.
    pub open spec fn wf(self) -> bool {
        &&& self.tree.wf()
        &&& self.chunks@.len() == self.tree.id.length
    }

    /// A stream whose tree hashes check out against its own chunk bytes;
    /// ingest establishes this and decode preserves it.
    pub open spec fn consistent(self) -> bool {
        &&& self.tree.root@.hashes_ok()
        &&& matches_chunks(self.tree.root@, self.chunks@)
    }

    /// A fresh allocation for a known identifier: the chunk buffer is
    /// created at its final length, all unverified; the root is `Missing`.
    pub fn allocate(id: StreamId) -> (r: Stream)
        requires
            id.wf(),
            id.length <= usize::MAX,
        ensures
            r.wf(),
            r.consistent(),
            r.tree.id == id,
            r.tree.root@.children is Missing,
            r.chunks@ == Seq::new(id.length as nat, |i: int| 0u8),
    {
        let length = id.length as usize;
        let chunks: Vec<u8> = vec![0; length];
        let tree = Tree::open(id);
        proof {
            assert(chunks@ =~= Seq::new(tree.id.length as nat, |i: int| 0u8));
        }
        Stream { tree, chunks }
    }

    pub fn id(&self) -> (r: &StreamId)
        ensures
            r == self.tree.id,
    {
        self.tree.id()
    }

    /// Every node of the tree intersecting `range` is verified.
    pub fn has_range(&self, range: &Range) -> (r: bool)
        requires
            self.wf(),
            range.wf(),
        ensures
            r == self.tree.root@.spec_has_range(*range),
    {
        self.tree.has_range(range)
    }

    /// The coalesced held intervals, ascending.
    pub fn ranges(&self) -> (r: Vec<Range>)
        requires
            self.wf(),
        ensures
            r@ == spec_cover_acc(self.tree.root@, Seq::empty(), false),
    {
        self.tree.ranges()
    }

    /// The coalesced missing intervals, ascending.
    pub fn missing_ranges(&self) -> (r: Vec<Range>)
        requires
            self.wf(),
        ensures
            r@ == spec_cover_acc(self.tree.root@, Seq::empty(), true),
    {
        self.tree.missing_ranges()
    }

    /// The range proof for `range`: header plus pre-order body; fails with
    /// `MissingNode` exactly when the range is not fully held.
    pub fn encode_range(&self, range: &Range) -> (r: Result<Vec<u8>, StoreError>)
        requires
            self.wf(),
            range.wf(),
        ensures
            r is Ok <==> spec_encode_node(self.tree.root@, *range, self.chunks@) is Some,
            r matches Ok(v) ==> v@ == spec_u64_to_le_bytes(self.tree.id.length)
                + spec_encode_node(self.tree.root@, *range, self.chunks@).unwrap(),
            r is Err ==> r == Err::<Vec<u8>, StoreError>(StoreError::MissingNode),
    {
        self.tree.encode_range(range, self.chunks.as_slice())
    }

    /// Stream the range proof for `range` into `out`.
    pub fn encode_range_to(&self, range: &Range, out: &mut Vec<u8>) -> (r: Result<(), StoreError>)
        requires
            self.wf(),
            range.wf(),
        ensures
            r is Ok <==> spec_encode_node(self.tree.root@, *range, self.chunks@) is Some,
            r is Ok ==> final(out)@ == old(out)@ + spec_u64_to_le_bytes(self.tree.id.length)
                + spec_encode_node(self.tree.root@, *range, self.chunks@).unwrap(),
            r is Err ==> r == Err::<(), StoreError>(StoreError::MissingNode),
    {
        self.tree.encode_range_to(range, out, self.chunks.as_slice())
    }

    /// Verify and absorb a range proof: hashes are checked top-down against
    /// the stream's root before any node is promoted or byte written.
    /// Whatever the outcome, knowledge only grows, verified bytes are never
    /// rewritten, and consistency is preserved; on success the whole of
    /// `range` is held afterwards.
    pub fn decode_range(&mut self, range: &Range, slice: &[u8]) -> (r: Result<(), StoreError>)
        requires
            old(self).wf(),
            range.wf(),
        ensures
            final(self).wf(),
            final(self).tree.id == old(self).tree.id,
            (slice@.len() >= 8 && spec_u64_from_le_bytes(slice@.subrange(0, 8)) == old(self).tree.id.length) ==> ({
                let out = spec_decode_node(
                    old(self).tree.root@,
                    *range,
                    slice@,
                    8,
                    old(self).chunks@,
                );
                &&& (r is Ok) == out.ok
                &&& final(self).tree.root@ == out.node
                &&& final(self).chunks@ == out.chunks
                &&& (r matches Err(e) ==> e == out.err)
            }),
            forall|b: int|
                old(self).tree.root@.data_byte(b) ==> final(self).tree.root@.data_byte(b),
            forall|b: int|
                0 <= b < old(self).chunks@.len() && old(self).tree.root@.data_byte(b) ==> final(self).chunks@[b] == old(self).chunks@[b],
            old(self).consistent() ==> final(self).consistent(),
            r is Ok ==> final(self).tree.root@.spec_has_range(*range),
    {
        self.tree.decode_range(range, slice, &mut self.chunks)
    }

    /// Verify and absorb a whole-stream proof.
    pub fn decode(&mut self, slice: &[u8]) -> (r: Result<(), StoreError>)
        requires
            old(self).wf(),
        ensures
            final(self).wf(),
            final(self).tree.id == old(self).tree.id,
            old(self).consistent() ==> final(self).consistent(),
            r is Ok ==> final(self).tree.root@.spec_has_range(old(self).tree.root@.range),
    {
        let range = self.tree.range();
        self.decode_range(&range, slice)
    }

    /// Read the bytes of `range`: succeeds exactly when the range lies
    /// within the stream and is fully held, and then returns exactly the
    /// chunk bytes of the range — bytes of unverified chunks are never
    /// served.
    pub fn read_range(&self, range: &Range) -> (r: Result<Vec<u8>, StoreError>)
        requires
            self.wf(),
            range.wf(),
        ensures
            r is Ok <==> (self.tree.root@.spec_has_range(*range) && range.spec_end()
                <= self.tree.id.length),
            r matches Ok(v) ==> v@ == self.chunks@.subrange(
                range.offset as int,
                range.spec_end(),
            ),
            r is Err ==> r == Err::<Vec<u8>, StoreError>(StoreError::RangeInvalid),
    {
        if !self.tree.has_range(range) {
            return Err(StoreError::RangeInvalid);
        }
        let n = self.chunks.len();
        let end = range.end();
        if end > self.tree.id.length() {
            return Err(StoreError::RangeInvalid);
        }
        proof {
            assert(range.offset <= range.spec_end() <= n);
        }
        let off = range.offset() as usize;
        let end = end as usize;
        Ok(crate::hash::bytes_of(self.chunks.as_slice(), off, end))
    }

    /// Read the whole stream.
    pub fn read(&self) -> (r: Result<Vec<u8>, StoreError>)
        requires
            self.wf(),
        ensures
            r is Ok <==> self.tree.root@.spec_has_range(self.tree.root@.range),
            r matches Ok(v) ==> v@ == self.chunks@,
    {
        let range = self.tree.range();
        let r = self.read_range(&range);
        proof {
            if r is Ok {
                assert(self.chunks@.subrange(0, self.tree.id.length as int) =~= self.chunks@);
            }
        }
        r
    }
}

/// The store: streams in insertion order, at most one per identifier.
#[derive(Debug)]
pub struct StreamStorage {
    pub entries: Vec<Stream>,
}

impl StreamStorage {
    /// Every held stream is well-formed.
    pub open spec fn wf(self) -> bool {
        forall|k: int| 0 <= k < self.entries@.len() ==> (#[trigger] self.entries@[k]).wf()
    }

    /// A fresh, empty store.
    pub fn new() -> (r: StreamStorage)
        ensures
            r.wf(),
            r.entries@.len() == 0,
    {
        StreamStorage { entries: Vec::new() }
    }

    /// The identifiers of all held streams, in insertion order.
    pub fn streams(&self) -> (r: Vec<StreamId>)
        requires
            self.wf(),
        ensures
            r@.len() == self.entries@.len(),
            forall|k: int|
                0 <= k < r@.len() ==> same_id(#[trigger] r@[k], self.entries@[k].tree.id),
    {
        let mut r: Vec<StreamId> = Vec::new();
        let mut k: usize = 0;
        while k < self.entries.len()
            invariant
                self.wf(),
                k <= self.entries@.len(),
                r@.len() == k,
                forall|j: int| 0 <= j < k ==> same_id(#[trigger] r@[j], self.entries@[j].tree.id),
            decreases self.entries@.len() - k,
        {
            let cloned = self.entries[k].tree.id.clone();
            proof {
                assert(same_id(cloned, self.entries@[k as int].tree.id));
            }
            r.push(cloned);
            k = k + 1;
        }
        r
    }

    /// The position of the stream with this identifier, if held.
    pub fn find(&self, id: &StreamId) -> (r: Option<usize>)
        requires
            self.wf(),
        ensures
            r matches Some(k) ==> (k < self.entries@.len() && same_id(
                self.entries@[k as int].tree.id,
                *id,
            )),
            r is None ==> forall|k: int|
                0 <= k < self.entries@.len() ==> !same_id(
                    (#[trigger] self.entries@[k]).tree.id,
                    *id,
                ),
    {
        let mut k: usize = 0;
        while k < self.entries.len()
            invariant
                self.wf(),
                k <= self.entries@.len(),
                forall|j: int|
                    0 <= j < k ==> !same_id((#[trigger] self.entries@[j]).tree.id, *id),
            decreases self.entries@.len() - k,
        {
            if self.entries[k].tree.id == *id {
                return Some(k);
            }
            k = k + 1;
        }
        None
    }

    /// The stream with this identifier is held.
    pub fn contains(&self, id: &StreamId) -> (r: bool)
        requires
            self.wf(),
        ensures
            r == exists|k: int|
                0 <= k < self.entries@.len() && same_id(
                    (#[trigger] self.entries@[k]).tree.id,
                    *id,
                ),
    {
        match self.find(id) {
            Some(_) => true,
            None => false,
        }
    }

    /// The held stream at a position.
    pub fn stream(&self, k: usize) -> (r: &Stream)
        requires
            k < self.entries@.len(),
        ensures
            *r == self.entries@[k as int],
    {
        &self.entries[k]
    }

    /// Mutable access to the held stream at a position.
    pub fn stream_mut(&mut self, k: usize) -> (r: &mut Stream)
        requires
            k < old(self).entries@.len(),
        ensures
            *r == old(self).entries@[k as int],
            final(self).entries@ == old(self).entries@.update(k as int, *final(r)),
    {
        vstd::std_specs::vec::vec_index_mut(&mut self.entries, k)
    }

    /// The position of the stream with this identifier, allocating it empty
    /// (chunk buffer at its final length, root `Missing`) when it is new.
    pub fn get(&mut self, id: &StreamId) -> (k: usize)
        requires
            old(self).wf(),
            id.wf(),
            id.length <= usize::MAX,
        ensures
            final(self).wf(),
            k < final(self).entries@.len(),
            same_id(final(self).entries@[k as int].tree.id, *id),
            (exists|j: int|
                0 <= j < old(self).entries@.len() && same_id(
                    (#[trigger] old(self).entries@[j]).tree.id,
                    *id,
                )) ==> final(self).entries@ == old(self).entries@,
            !(exists|j: int|
                0 <= j < old(self).entries@.len() && same_id(
                    (#[trigger] old(self).entries@[j]).tree.id,
                    *id,
                )) ==> (final(self).entries@.len() == old(self).entries@.len() + 1 && k as int
                == old(self).entries@.len() && final(self).entries@[k as int].tree.root@.children is Missing && final(self).entries@[k as int].consistent() && final(self).entries@.subrange(
                0,
                old(self).entries@.len() as int,
            ) == old(self).entries@),
    {
        match self.find(id) {
            Some(k) => k,
            None => {
                let fresh = Stream::allocate(id.clone());
                let k = self.entries.len();
                self.entries.push(fresh);
                proof {
                    assert(self.entries@.subrange(0, old(self).entries@.len() as int) =~= old(self).entries@);
                }
                k
            },
        }
    }

    /// Ingest a byte sequence: hash it into its fully verified tree, keep
    /// tree and bytes, and return the stream's identifier — the tree hash
    /// of the bytes plus their length and the media-type code. A stream
    /// already held under the same identifier is replaced.
    pub fn insert(&mut self, mime: Mime, bytes: &[u8]) -> (r: StreamId)
        requires
            old(self).wf(),
        ensures
            final(self).wf(),
            r.wf(),
            r.hash@ == spec_tree_hash(bytes@),
            r.length == bytes@.len(),
            r.mime == spec_mime_code(mime),
            exists|k: int|
                0 <= k < final(self).entries@.len() && ({
                    let e = #[trigger] final(self).entries@[k];
                    &&& same_id(e.tree.id, r)
                    &&& e.wf()
                    &&& e.consistent()
                    &&& e.tree.root@.all_data()
                    &&& e.chunks@ == bytes@
                }),
    {
        let tree = tree_hash(bytes, mime);
        let id = tree.id().clone();
        let chunks = crate::hash::bytes_of(bytes, 0, bytes.len());
        proof {
            assert(bytes@.subrange(0, bytes@.len() as int) =~= bytes@);
        }
        let stream = Stream { tree, chunks };
        let ghost st = stream;
        match self.find(&id) {
            Some(k) => {
                let dst = vstd::std_specs::vec::vec_index_mut(&mut self.entries, k);
                *dst = stream;
                proof {
                    assert(self.entries@[k as int] == st);
                }
            },
            None => {
                let ghost n = self.entries@.len();
                self.entries.push(stream);
                proof {
                    assert(self.entries@[n as int] == st);
                }
            },
        }
        id
    }

    /// Drop the stream with this identifier: its tree and chunk buffer go
    /// together. Fails exactly when the store does not hold it.
    pub fn remove(&mut self, id: &StreamId) -> (r: Result<(), StoreError>)
        requires
            old(self).wf(),
        ensures
            final(self).wf(),
            r is Ok <==> exists|j: int|
                0 <= j < old(self).entries@.len() && same_id(
                    (#[trigger] old(self).entries@[j]).tree.id,
                    *id,
                ),
            r is Err ==> (r == Err::<(), StoreError>(StoreError::FormatError) && *final(self)
                == *old(self)),
            r is Ok ==> exists|k: int|
                0 <= k < old(self).entries@.len() && same_id(
                    (#[trigger] old(self).entries@[k]).tree.id,
                    *id,
                ) && final(self).entries@ == old(self).entries@.remove(k),
    {
        match self.find(id) {
            Some(k) => {
                self.entries.remove(k);
                proof {
                    assert(self.entries@ == old(self).entries@.remove(k as int));
                }
                Ok(())
            },
            None => Err(StoreError::FormatError),
        }
    }
}

/// Slice round-trip at the stream level: a proof that `encode_range`
/// produced from a consistent stream decodes successfully into a fresh
/// allocation of the same identifier, the requested range is held
/// afterwards, and every byte verified on the way — in particular every
/// byte of the range — comes out equal to the sender's.
pub proof fn lemma_stream_round_trip(src: Stream, dst: Stream, q: Range)
    requires
        src.wf(),
        src.consistent(),
        q.wf(),
        spec_encode_node(src.tree.root@, q, src.chunks@) is Some,
        dst.wf(),
        dst.tree.root@.children is Missing,
        same_id(dst.tree.id, src.tree.id),
    ensures
        ({
            let slice = spec_u64_to_le_bytes(src.tree.id.length) + spec_encode_node(
                src.tree.root@,
                q,
                src.chunks@,
            ).unwrap();
            let out = spec_decode_node(dst.tree.root@, q, slice, 8, dst.chunks@);
            &&& out.ok
            &&& out.node.spec_has_range(q)
            &&& forall|b: int|
                0 <= b < src.tree.id.length && out.node.data_byte(b) ==> out.chunks[b]
                    == src.chunks@[b]
            &&& (q.length > 0 ==> forall|b: int|
                0 <= b < src.tree.id.length && q.offset <= b < q.spec_end() ==> out.chunks[b]
                    == src.chunks@[b])
        }),
{
    let body = spec_encode_node(src.tree.root@, q, src.chunks@).unwrap();
    let slice = spec_u64_to_le_bytes(src.tree.id.length) + body;
    vstd::bytes::lemma_auto_spec_u64_to_from_le_bytes();
    assert(slice.subrange(8, 8 + body.len() as int) =~= body);
    crate::tree::lemma_slice_round_trip(
        src.tree.root@,
        dst.tree.root@,
        q,
        slice,
        8,
        src.chunks@,
        dst.chunks@,
    );
    crate::tree::lemma_decode_preserves(dst.tree.root@, q, slice, 8, dst.chunks@);
    let out = spec_decode_node(dst.tree.root@, q, slice, 8, dst.chunks@);
    if q.length > 0 {
        crate::tree::lemma_has_range_bytes(out.node, q);
        assert forall|b: int|
            0 <= b < src.tree.id.length && q.offset <= b < q.spec_end() implies out.chunks[b]
            == src.chunks@[b] by {
            assert(out.node.data_byte(b));
        }
    }
}

/// The content-addressed chunk-file name for a stream: the 64-character
/// hexadecimal form of the BLAKE3 hash of the identifier's 43-byte form
/// (callers fan directories out by its first two characters).
pub fn chunk_file_name(id: &StreamId) -> (r: String)
    ensures
        r@ == spec_hex(blake3_of(id.spec_to_bytes())),
{
    let bytes = id.to_bytes();
    let hash = blake3_hash(bytes.as_slice());
    hex_encode(hash.as_slice())
}

} // verus!
