//! The persistent binary Merkle tree over chunks: query of held and missing
//! ranges, range-proof encoding, and range-proof verification and decoding.

use crate::hash::{
    bytes_eq, bytes_of, chunk_cv, chunk_hash, lemma_extend_u8, parent_cv, parent_hash,
};
use crate::range::{lemma_split_lengths, lemma_split_parts, Range};
use crate::stream_id::StreamId;
use crate::{StoreError, CHUNK_SIZE};
use vstd::bytes::*;
use vstd::prelude::*;

verus! {

/// The three states of a node. A chunk node (range of at most one chunk) is
/// either `Missing` or `Data`; a wider node is either `Missing` or
/// `Interior` with its two children.
#[derive(Debug)]
pub enum Children {
    Missing,
    Data,
    Interior(Box<Node>, Box<Node>),
}

/// One node of a stream's tree: its 32-byte BLAKE3 hash, the byte interval
/// it covers, whether it is the stream's root, and its child state.
#[derive(Debug)]
pub struct Node {
    pub hash: Vec<u8>,
    pub range: Range,
    pub is_root: bool,
    pub children: Children,
}

/// Mathematical model of a node's child state.
pub enum ChildrenView {
    Missing,
    Data,
    Interior(Box<NodeView>, Box<NodeView>),
}

/// Mathematical model of a node.
pub struct NodeView {
    pub hash: Seq<u8>,
    pub range: Range,
    pub is_root: bool,
    pub children: ChildrenView,
}

pub open spec fn node_view(n: Node) -> NodeView
    decreases n,
{
    NodeView {
        hash: n.hash@,
        range: n.range,
        is_root: n.is_root,
        children: match n.children {
            Children::Missing => ChildrenView::Missing,
            Children::Data => ChildrenView::Data,
            Children::Interior(l, r) => ChildrenView::Interior(
                Box::new(node_view(*l)),
                Box::new(node_view(*r)),
            ),
        },
    }
}

impl View for Node {
    type V = NodeView;

    open spec fn view(&self) -> NodeView {
        node_view(*self)
    }
}

impl NodeView {
    /// Structural well-formedness: a 32-byte hash, chunk-aligned geometry,
    /// children laid out exactly by the Bao split rule, and only the
    /// stream's root flagged as root.
    pub open spec fn wf(self) -> bool
        decreases self,
    {
        &&& self.hash.len() == 32
        &&& self.range.wf()
        &&& self.range.offset as int % (CHUNK_SIZE as int) == 0
        &&& match self.children {
            ChildrenView::Missing => true,
            ChildrenView::Data => self.range.spec_is_chunk(),
            ChildrenView::Interior(l, r) => {
                &&& !self.range.spec_is_chunk()
                &&& self.range.spec_split() == Some((l.range, r.range))
                &&& !l.is_root
                &&& !r.is_root
                &&& l.wf()
                &&& r.wf()
            },
        }
    }

    /// Cryptographic consistency: every interior node's hash is the BLAKE3
    /// parent chaining value of its children's hashes.
    pub open spec fn hashes_ok(self) -> bool
        decreases self,
    {
        match self.children {
            ChildrenView::Interior(l, r) => {
                &&& self.hash == parent_cv(l.hash, r.hash, self.is_root)
                &&& l.hashes_ok()
                &&& r.hashes_ok()
            },
            _ => true,
        }
    }

    /// The byte at offset `b` lies in a verified `Data` chunk.
    pub open spec fn data_byte(self, b: int) -> bool
        decreases self,
    {
        match self.children {
            ChildrenView::Missing => false,
            ChildrenView::Data => true,
            ChildrenView::Interior(l, r) => if b < l.range.spec_end() {
                l.data_byte(b)
            } else {
                r.data_byte(b)
            },
        }
    }

    /// Mirror of the `has_range` walk: false exactly when some node that
    /// intersects `q` is missing.
    pub open spec fn spec_has_range(self, q: Range) -> bool
        decreases self,
    {
        if self.children is Missing && self.range.spec_intersects(q) {
            false
        } else {
            match self.children {
                ChildrenView::Interior(l, r) => l.spec_has_range(q) && r.spec_has_range(q),
                _ => true,
            }
        }
    }

    /// Every chunk of the subtree is verified `Data`.
    pub open spec fn all_data(self) -> bool
        decreases self,
    {
        match self.children {
            ChildrenView::Missing => false,
            ChildrenView::Data => true,
            ChildrenView::Interior(l, r) => l.all_data() && r.all_data(),
        }
    }

    /// The node at the bottom of the rightmost spine: the trailing chunk
    /// once the spine is explored, else the deepest known node over it.
    pub open spec fn spec_last_chunk(self) -> NodeView
        decreases self,
    {
        match self.children {
            ChildrenView::Interior(_, r) => r.spec_last_chunk(),
            _ => self,
        }
    }

    /// Mirror of the rightmost-spine walk: the trailing chunk is known.
    pub open spec fn spec_last_data(self) -> bool
        decreases self,
    {
        match self.children {
            ChildrenView::Missing => false,
            ChildrenView::Data => true,
            ChildrenView::Interior(_, r) => r.spec_last_data(),
        }
    }
}

/// One node record as a persistent key-value store keeps it: an interior
/// node's hash with its two child hashes, or a verified chunk's hash (the
/// chunk's payload lives in the chunk buffer, keyed by its offset).
#[derive(Debug)]
pub enum Insertion {
    Parent(Vec<u8>, Vec<u8>, Vec<u8>),
    Chunk(Vec<u8>),
}

/// Mathematical model of a node record.
pub enum InsertionView {
    Parent(Seq<u8>, Seq<u8>, Seq<u8>),
    Chunk(Seq<u8>),
}

impl View for Insertion {
    type V = InsertionView;

    open spec fn view(&self) -> InsertionView {
        match self {
            Insertion::Parent(h, l, r) => InsertionView::Parent(h@, l@, r@),
            Insertion::Chunk(h) => InsertionView::Chunk(h@),
        }
    }
}

/// The views of a list of records.
pub open spec fn insertion_views(s: Seq<Insertion>) -> Seq<InsertionView> {
    s.map_values(|i: Insertion| i@)
}

/// The records of every known node below `v`, in pre-order.
pub open spec fn spec_insertions(v: NodeView) -> Seq<InsertionView>
    decreases v,
{
    match v.children {
        ChildrenView::Missing => Seq::empty(),
        ChildrenView::Data => seq![InsertionView::Chunk(v.hash)],
        ChildrenView::Interior(l, r) => seq![InsertionView::Parent(v.hash, l.hash, r.hash)]
            + spec_insertions(*l) + spec_insertions(*r),
    }
}

/// Append an interval to a coalesced list: when it starts exactly where the
/// last entry ends it is merged into it, otherwise it opens a new entry.
pub open spec fn spec_push_coalesced(acc: Seq<Range>, nr: Range) -> Seq<Range> {
    if acc.len() > 0 && acc.last().spec_end() == nr.offset {
        acc.update(
            acc.len() - 1,
            Range {
                offset: acc.last().offset,
                length: (acc.last().length + nr.length) as u64,
            },
        )
    } else {
        acc.push(nr)
    }
}

/// The coalesced intervals collected by a left-to-right walk of the tree:
/// with `missing` false, those of the verified `Data` chunks; with `missing`
/// true, those of the missing subtrees (a missing interior node contributes
/// its whole range, not its descendants).
pub open spec fn spec_cover_acc(v: NodeView, acc: Seq<Range>, missing: bool) -> Seq<Range>
    decreases v,
{
    match v.children {
        ChildrenView::Missing => if missing {
            spec_push_coalesced(acc, v.range)
        } else {
            acc
        },
        ChildrenView::Data => if missing {
            acc
        } else {
            spec_push_coalesced(acc, v.range)
        },
        ChildrenView::Interior(l, r) => spec_cover_acc(
            *r,
            spec_cover_acc(*l, acc, missing),
            missing,
        ),
    }
}

/// Byte `b` is covered by some interval of the list.
pub open spec fn in_ranges(rs: Seq<Range>, b: int) -> bool {
    exists|i: int| 0 <= i < rs.len() && (#[trigger] rs[i]).offset <= b < rs[i].spec_end()
}

/// A coalesced list: well-formed nonempty intervals, in ascending order,
/// never adjacent, all ending by `bound`.
pub open spec fn ranges_ok(rs: Seq<Range>, bound: int) -> bool {
    &&& forall|i: int|
        0 <= i < rs.len() ==> (#[trigger] rs[i]).wf() && rs[i].length > 0 && rs[i].spec_end()
            <= bound
    &&& forall|i: int| 0 <= i < rs.len() - 1 ==> (#[trigger] rs[i]).spec_end() < rs[i + 1].offset
}

/// What a cover walk adds to a coalesced accumulator: the result is still
/// coalesced and covers, over the node's interval, exactly the bytes the
/// polarity selects; coverage outside the node's interval is unchanged.
pub proof fn lemma_cover_acc(v: NodeView, acc: Seq<Range>, missing: bool)
    requires
        v.wf(),
        v.range.length > 0,
        ranges_ok(acc, v.range.offset as int),
    ensures
        ranges_ok(spec_cover_acc(v, acc, missing), v.range.spec_end()),
        forall|b: int|
            b < v.range.offset ==> (in_ranges(#[trigger] spec_cover_acc(v, acc, missing), b)
                == in_ranges(acc, b)),
        forall|b: int|
            v.range.offset <= b < v.range.spec_end() ==> (in_ranges(
                #[trigger] spec_cover_acc(v, acc, missing),
                b,
            ) == (if missing {
                !v.data_byte(b)
            } else {
                v.data_byte(b)
            })),
        forall|b: int| b >= v.range.spec_end() ==> !in_ranges(spec_cover_acc(v, acc, missing), b),
    decreases v,
{
    let res = spec_cover_acc(v, acc, missing);
    assert forall|b: int| b >= v.range.offset implies !in_ranges(acc, b) by {
        assert forall|i: int| 0 <= i < acc.len() implies !((#[trigger] acc[i]).offset <= b < acc[i].spec_end())
        by {
            assert(acc[i].spec_end() <= v.range.offset);
        }
    }
    match v.children {
        ChildrenView::Missing => {
            if missing {
                lemma_push_coalesced(acc, v.range, v.range.offset as int);
            } else {
                assert(res == acc);
            }
        },
        ChildrenView::Data => {
            if missing {
                assert(res == acc);
            } else {
                lemma_push_coalesced(acc, v.range, v.range.offset as int);
            }
        },
        ChildrenView::Interior(l, r) => {
            lemma_split_parts(v.range);
            let mid = spec_cover_acc(*l, acc, missing);
            lemma_cover_acc(*l, acc, missing);
            lemma_cover_acc(*r, mid, missing);
            assert(l.range.spec_end() == r.range.offset);
            assert forall|b: int|
                v.range.offset <= b < v.range.spec_end() implies (in_ranges(res, b) == (if missing {
                !v.data_byte(b)
            } else {
                v.data_byte(b)
            })) by {
                if b < l.range.spec_end() {
                    assert(in_ranges(res, b) == in_ranges(mid, b));
                    assert(v.data_byte(b) == l.data_byte(b));
                } else {
                    assert(v.data_byte(b) == r.data_byte(b));
                }
            }
        },
    }
}

/// Effect of one coalesced append on coverage and structure.
pub proof fn lemma_push_coalesced(acc: Seq<Range>, nr: Range, bound: int)
    requires
        ranges_ok(acc, bound),
        nr.wf(),
        nr.length > 0,
        nr.offset >= bound,
    ensures
        ranges_ok(spec_push_coalesced(acc, nr), nr.spec_end()),
        forall|b: int|
            b < nr.offset ==> (in_ranges(#[trigger] spec_push_coalesced(acc, nr), b) == in_ranges(
                acc,
                b,
            )),
        forall|b: int|
            nr.offset <= b < nr.spec_end() ==> in_ranges(#[trigger] spec_push_coalesced(acc, nr), b),
        forall|b: int| b >= nr.spec_end() ==> !in_ranges(spec_push_coalesced(acc, nr), b),
{
    let res = spec_push_coalesced(acc, nr);
    if acc.len() > 0 && acc.last().spec_end() == nr.offset {
        let merged = Range {
            offset: acc.last().offset,
            length: (acc.last().length + nr.length) as u64,
        };
        assert(merged.spec_end() == nr.spec_end());
        assert forall|b: int| b < nr.offset implies (in_ranges(res, b) == in_ranges(acc, b)) by {
            if in_ranges(acc, b) {
                let i = choose|i: int|
                    0 <= i < acc.len() && (#[trigger] acc[i]).offset <= b < acc[i].spec_end();
                if i == acc.len() - 1 {
                    assert(res[i].offset <= b < res[i].spec_end());
                } else {
                    assert(res[i].offset <= b < res[i].spec_end());
                }
            }
            if in_ranges(res, b) {
                let i = choose|i: int|
                    0 <= i < res.len() && (#[trigger] res[i]).offset <= b < res[i].spec_end();
                if i == res.len() - 1 {
                    assert(acc[i].offset <= b < acc[i].spec_end());
                } else {
                    assert(acc[i].offset <= b < acc[i].spec_end());
                }
            }
        }
        assert forall|b: int| nr.offset <= b < nr.spec_end() implies in_ranges(res, b) by {
            let i = res.len() - 1;
            assert(res[i].offset <= b < res[i].spec_end());
        }
        assert forall|b: int| b >= nr.spec_end() implies !in_ranges(res, b) by {
            assert forall|i: int|
                0 <= i < res.len() implies !((#[trigger] res[i]).offset <= b < res[i].spec_end()) by {
                if i == res.len() - 1 {
                } else {
                    assert(res[i] == acc[i]);
                }
            }
        }
    } else {
        assert(res == acc.push(nr));
        assert forall|b: int| b < nr.offset implies (in_ranges(res, b) == in_ranges(acc, b)) by {
            if in_ranges(acc, b) {
                let i = choose|i: int|
                    0 <= i < acc.len() && (#[trigger] acc[i]).offset <= b < acc[i].spec_end();
                assert(res[i].offset <= b < res[i].spec_end());
            }
            if in_ranges(res, b) {
                let i = choose|i: int|
                    0 <= i < res.len() && (#[trigger] res[i]).offset <= b < res[i].spec_end();
                assert(i < acc.len());
                assert(acc[i].offset <= b < acc[i].spec_end());
            }
        }
        assert forall|b: int| nr.offset <= b < nr.spec_end() implies in_ranges(res, b) by {
            let i = res.len() - 1;
            assert(res[i].offset <= b < res[i].spec_end());
        }
        assert forall|b: int| b >= nr.spec_end() implies !in_ranges(res, b) by {
            assert forall|i: int|
                0 <= i < res.len() implies !((#[trigger] res[i]).offset <= b < res[i].spec_end()) by {
                if i < acc.len() {
                    assert(acc[i].spec_end() <= bound <= nr.offset);
                }
            }
        }
        if acc.len() > 0 {
            assert(acc.last().spec_end() < nr.offset || acc.last().spec_end() > nr.offset);
        }
    }
}

/// The body of a range proof for `q` below node `v`, read against the chunk
/// bytes `chunks`: a pre-order walk that emits, at each interior node
/// intersecting `q`, the two child hashes, and at each chunk node
/// intersecting `q`, its payload. `None` when the walk meets a missing node.
pub open spec fn spec_encode_node(v: NodeView, q: Range, chunks: Seq<u8>) -> Option<Seq<u8>>
    decreases v,
{
    if v.range.spec_is_chunk() {
        if v.range.spec_intersects(q) {
            if v.children is Data {
                Some(chunks.subrange(v.range.offset as int, v.range.spec_end()))
            } else {
                None
            }
        } else {
            Some(Seq::empty())
        }
    } else {
        match v.children {
            ChildrenView::Interior(l, r) => {
                let lpart = if l.range.spec_intersects(q) {
                    spec_encode_node(*l, q, chunks)
                } else {
                    Some(Seq::<u8>::empty())
                };
                let rpart = if r.range.spec_intersects(q) {
                    spec_encode_node(*r, q, chunks)
                } else {
                    Some(Seq::<u8>::empty())
                };
                if lpart is Some && rpart is Some {
                    Some(l.hash + r.hash + lpart.unwrap() + rpart.unwrap())
                } else {
                    None
                }
            },
            _ => None,
        }
    }
}

/// The chunk bytes consistent with the tree: every `Data` chunk's hash is
/// the BLAKE3 chunk chaining value of its bytes in the chunk buffer.
pub open spec fn matches_chunks(v: NodeView, chunks: Seq<u8>) -> bool
    decreases v,
{
    match v.children {
        ChildrenView::Data => v.hash == chunk_cv(
            v.range.spec_index(),
            chunks.subrange(v.range.offset as int, v.range.spec_end()),
            v.is_root,
        ),
        ChildrenView::Interior(l, r) => matches_chunks(*l, chunks) && matches_chunks(*r, chunks),
        ChildrenView::Missing => true,
    }
}

/// `chunks` with the bytes at `off` overwritten by `payload`.
pub open spec fn upd_bytes(chunks: Seq<u8>, off: int, payload: Seq<u8>) -> Seq<u8> {
    chunks.subrange(0, off) + payload + chunks.subrange(
        off + payload.len(),
        chunks.len() as int,
    )
}

/// Everything one decode walk does: whether it succeeds, with which error
/// it stops, and the node, read position and chunk bytes it leaves behind.
/// On failure the node keeps whatever was promoted before the failure.
pub struct DecodeOut {
    pub ok: bool,
    pub err: StoreError,
    pub node: NodeView,
    pub pos: int,
    pub chunks: Seq<u8>,
}

/// Mirror of the decode walk for `q` below a node `v`. At a missing chunk
/// node intersecting `q`: read the payload, check its chunk chaining value
/// against the node's hash, commit the bytes and promote to `Data`. At a
/// wider node: read the two child hashes, check their parent chaining value
/// against the node's hash, promote a missing node to `Interior` (children
/// created `Missing` with the split ranges), then recurse into the children
/// that intersect `q`. Hashes are verified top-down before any child is
/// created or any byte is written.
pub open spec fn spec_decode_node(
    v: NodeView,
    q: Range,
    input: Seq<u8>,
    pos: int,
    chunks: Seq<u8>,
) -> DecodeOut
    decreases v.range.length,
    via spec_decode_node_decreases
{
    if v.range.spec_is_chunk() {
        if v.children is Missing && v.range.spec_intersects(q) {
            let len = v.range.length as int;
            if pos + len > input.len() {
                DecodeOut { ok: false, err: StoreError::FormatError, node: v, pos, chunks }
            } else {
                let payload = input.subrange(pos, pos + len);
                if chunk_cv(v.range.spec_index(), payload, v.is_root) == v.hash {
                    DecodeOut {
                        ok: true,
                        err: StoreError::FormatError,
                        node: NodeView { children: ChildrenView::Data, ..v },
                        pos: pos + len,
                        chunks: upd_bytes(chunks, v.range.offset as int, payload),
                    }
                } else {
                    DecodeOut { ok: false, err: StoreError::CryptoMismatch, node: v, pos, chunks }
                }
            }
        } else {
            DecodeOut { ok: true, err: StoreError::FormatError, node: v, pos, chunks }
        }
    } else {
        if pos + 64 > input.len() {
            DecodeOut { ok: false, err: StoreError::FormatError, node: v, pos, chunks }
        } else {
            let lh = input.subrange(pos, pos + 32);
            let rh = input.subrange(pos + 32, pos + 64);
            if parent_cv(lh, rh, v.is_root) != v.hash {
                DecodeOut { ok: false, err: StoreError::CryptoMismatch, node: v, pos, chunks }
            } else {
                let sp = v.range.spec_split().unwrap();
                let l0 = match v.children {
                    ChildrenView::Interior(l, _) => NodeView { range: sp.0, ..*l },
                    _ => NodeView {
                        hash: lh,
                        range: sp.0,
                        is_root: false,
                        children: ChildrenView::Missing,
                    },
                };
                let r0 = match v.children {
                    ChildrenView::Interior(_, r) => NodeView { range: sp.1, ..*r },
                    _ => NodeView {
                        hash: rh,
                        range: sp.1,
                        is_root: false,
                        children: ChildrenView::Missing,
                    },
                };
                let lres = if l0.range.spec_intersects(q) {
                    spec_decode_node(l0, q, input, pos + 64, chunks)
                } else {
                    DecodeOut {
                        ok: true,
                        err: StoreError::FormatError,
                        node: l0,
                        pos: pos + 64,
                        chunks,
                    }
                };
                if !lres.ok {
                    DecodeOut {
                        ok: false,
                        err: lres.err,
                        node: NodeView {
                            children: ChildrenView::Interior(Box::new(lres.node), Box::new(r0)),
                            ..v
                        },
                        pos: lres.pos,
                        chunks: lres.chunks,
                    }
                } else {
                    let rres = if r0.range.spec_intersects(q) {
                        spec_decode_node(r0, q, input, lres.pos, lres.chunks)
                    } else {
                        DecodeOut {
                            ok: true,
                            err: StoreError::FormatError,
                            node: r0,
                            pos: lres.pos,
                            chunks: lres.chunks,
                        }
                    };
                    DecodeOut {
                        ok: rres.ok,
                        err: rres.err,
                        node: NodeView {
                            children: ChildrenView::Interior(
                                Box::new(lres.node),
                                Box::new(rres.node),
                            ),
                            ..v
                        },
                        pos: rres.pos,
                        chunks: rres.chunks,
                    }
                }
            }
        }
    }
}

#[via_fn]
proof fn spec_decode_node_decreases(v: NodeView, q: Range, input: Seq<u8>, pos: int, chunks: Seq<u8>) {
    if !v.range.spec_is_chunk() {
        lemma_split_lengths(v.range);
    }
}

/// A fully verified subtree holds every interval, every byte, and its
/// trailing chunk.
pub proof fn lemma_all_data(v: NodeView, q: Range)
    requires
        v.all_data(),
    ensures
        v.spec_has_range(q),
        v.spec_last_data(),
        forall|b: int| v.data_byte(b),
    decreases v,
{
    match v.children {
        ChildrenView::Interior(l, r) => {
            lemma_all_data(*l, q);
            lemma_all_data(*r, q);
            assert forall|b: int| v.data_byte(b) by {
                if b < l.range.spec_end() {
                    assert(l.data_byte(b));
                } else {
                    assert(r.data_byte(b));
                }
            }
        },
        _ => {},
    }
}

/// Chunk consistency only looks at the bytes under the node's interval.
pub proof fn lemma_matches_frame(v: NodeView, c1: Seq<u8>, c2: Seq<u8>)
    requires
        v.wf(),
        matches_chunks(v, c1),
        c1.len() >= v.range.spec_end(),
        c2.len() >= v.range.spec_end(),
        forall|b: int|
            v.range.offset <= b < v.range.spec_end() ==> c2[b] == c1[b],
    ensures
        matches_chunks(v, c2),
    decreases v,
{
    match v.children {
        ChildrenView::Data => {
            assert(c2.subrange(v.range.offset as int, v.range.spec_end()) =~= c1.subrange(
                v.range.offset as int,
                v.range.spec_end(),
            ));
        },
        ChildrenView::Interior(l, r) => {
            lemma_split_parts(v.range);
            lemma_matches_frame(*l, c1, c2);
            lemma_matches_frame(*r, c1, c2);
        },
        ChildrenView::Missing => {},
    }
}

#[verifier::rlimit(100)]
#[verifier::spinoff_prover]
/// What one decode walk guarantees, whether it succeeds or not: geometry,
/// hash and root flag are untouched; well-formedness, hash consistency and
/// chunk consistency are preserved; bytes outside the node's interval and
/// bytes of already-verified chunks are never rewritten; knowledge only
/// grows; and a successful walk leaves the whole of `q` held.
pub proof fn lemma_decode_preserves(v: NodeView, q: Range, input: Seq<u8>, pos: int, chunks: Seq<u8>)
    requires
        v.wf(),
        q.wf(),
        chunks.len() >= v.range.spec_end(),
        0 <= pos,
    ensures
        ({
            let out = spec_decode_node(v, q, input, pos, chunks);
            &&& out.node.wf()
            &&& out.node.range == v.range
            &&& out.node.hash == v.hash
            &&& out.node.is_root == v.is_root
            &&& out.chunks.len() == chunks.len()
            &&& pos <= out.pos
            &&& (pos <= input.len() ==> out.pos <= input.len())
            &&& forall|b: int|
                0 <= b < chunks.len() && !(v.range.offset <= b < v.range.spec_end())
                    ==> out.chunks[b] == chunks[b]
            &&& forall|b: int| v.data_byte(b) ==> out.node.data_byte(b)
            &&& forall|b: int|
                v.range.offset <= b < v.range.spec_end() && v.data_byte(b) ==> out.chunks[b]
                    == chunks[b]
            &&& (v.hashes_ok() ==> out.node.hashes_ok())
            &&& ((v.hashes_ok() && matches_chunks(v, chunks)) ==> matches_chunks(
                out.node,
                out.chunks,
            ))
            &&& (out.ok ==> out.node.spec_has_range(q))
        }),
    decreases v.range.length,
{
    let out = spec_decode_node(v, q, input, pos, chunks);
    if v.range.spec_is_chunk() {
        if v.children is Missing && v.range.spec_intersects(q) {
            let len = v.range.length as int;
            if pos + len <= input.len() {
                let payload = input.subrange(pos, pos + len);
                if chunk_cv(v.range.spec_index(), payload, v.is_root) == v.hash {
                    let off = v.range.offset as int;
                    assert(payload.len() == len);
                    assert(out.chunks.len() == chunks.len()) by {
                        assert(out.chunks == upd_bytes(chunks, off, payload));
                    }
                    assert forall|j: int| 0 <= j < chunks.len() implies out.chunks[j] == (if off
                        <= j < off + len {
                        payload[j - off]
                    } else {
                        chunks[j]
                    }) by {
                        assert(out.chunks == chunks.subrange(0, off) + payload + chunks.subrange(
                            off + len,
                            chunks.len() as int,
                        ));
                    }
                    assert(out.chunks.subrange(v.range.offset as int, v.range.spec_end())
                        =~= payload);
                    assert(matches_chunks(out.node, out.chunks));
                }
            }
        }
    } else {
        lemma_split_parts(v.range);
        if pos + 64 <= input.len() {
            let lh = input.subrange(pos, pos + 32);
            let rh = input.subrange(pos + 32, pos + 64);
            if parent_cv(lh, rh, v.is_root) == v.hash {
                let sp = v.range.spec_split().unwrap();
                let l0 = match v.children {
                    ChildrenView::Interior(l, _) => NodeView { range: sp.0, ..*l },
                    _ => NodeView {
                        hash: lh,
                        range: sp.0,
                        is_root: false,
                        children: ChildrenView::Missing,
                    },
                };
                let r0 = match v.children {
                    ChildrenView::Interior(_, r) => NodeView { range: sp.1, ..*r },
                    _ => NodeView {
                        hash: rh,
                        range: sp.1,
                        is_root: false,
                        children: ChildrenView::Missing,
                    },
                };
                match v.children {
                    ChildrenView::Interior(l, r) => {
                        assert(l0 == *l);
                        assert(r0 == *r);
                    },
                    _ => {},
                }
                assert(l0.wf());
                assert(r0.wf());
                let lres = if l0.range.spec_intersects(q) {
                    spec_decode_node(l0, q, input, pos + 64, chunks)
                } else {
                    DecodeOut {
                        ok: true,
                        err: StoreError::FormatError,
                        node: l0,
                        pos: pos + 64,
                        chunks,
                    }
                };
                if l0.range.spec_intersects(q) {
                    lemma_decode_preserves(l0, q, input, pos + 64, chunks);
                }
                if !lres.ok {
                    // The walk stops after the left half; the right child is
                    // whatever it was.
                    assert(out.node == (NodeView {
                        children: ChildrenView::Interior(Box::new(lres.node), Box::new(r0)),
                        ..v
                    }));
                    if v.hashes_ok() && matches_chunks(v, chunks) {
                        lemma_matches_frame(r0, chunks, lres.chunks);
                    }
                    assert forall|b: int| v.data_byte(b) implies out.node.data_byte(b) by {
                        if b < l0.range.spec_end() {
                            assert(l0.data_byte(b));
                            assert(lres.node.data_byte(b));
                        } else {
                            assert(r0.data_byte(b));
                        }
                    }
                    assert forall|b: int|
                        v.range.offset <= b < v.range.spec_end() && v.data_byte(b) implies out
                        .chunks[b] == chunks[b] by {
                        if b < l0.range.spec_end() {
                            assert(l0.data_byte(b));
                        }
                    }
                    if v.hashes_ok() {
                        assert(l0.hashes_ok());
                        assert(r0.hashes_ok());
                        assert(lres.node.hashes_ok());
                        assert(v.hash == parent_cv(l0.hash, r0.hash, v.is_root));
                        assert(out.node.hashes_ok());
                        if matches_chunks(v, chunks) {
                            assert(matches_chunks(l0, chunks));
                            assert(matches_chunks(r0, chunks));
                            assert(matches_chunks(lres.node, lres.chunks));
                            assert(matches_chunks(r0, lres.chunks));
                            assert(matches_chunks(out.node, out.chunks));
                        }
                    }
                    assert(out.node.wf());
                    assert(out.chunks.len() == chunks.len());
                    assert(pos <= out.pos);
                    assert(pos <= input.len() ==> out.pos <= input.len());
                    assert forall|b: int|
                        0 <= b < chunks.len() && !(v.range.offset <= b < v.range.spec_end())
                        implies out.chunks[b] == chunks[b] by {
                        assert(lres.chunks[b] == chunks[b]);
                    }
                } else {
                    let rres = if r0.range.spec_intersects(q) {
                        spec_decode_node(r0, q, input, lres.pos, lres.chunks)
                    } else {
                        DecodeOut {
                            ok: true,
                            err: StoreError::FormatError,
                            node: r0,
                            pos: lres.pos,
                            chunks: lres.chunks,
                        }
                    };
                    if r0.range.spec_intersects(q) {
                        lemma_decode_preserves(r0, q, input, lres.pos, lres.chunks);
                    }
                    assert(out.node == (NodeView {
                        children: ChildrenView::Interior(Box::new(lres.node), Box::new(rres.node)),
                        ..v
                    }));
                    // The right walk leaves the left half's bytes alone.
                    assert forall|b: int|
                        l0.range.offset <= b < l0.range.spec_end() implies rres.chunks[b]
                        == lres.chunks[b] by {}
                    if v.hashes_ok() && matches_chunks(v, chunks) {
                        assert(matches_chunks(l0, chunks));
                        assert(matches_chunks(r0, chunks));
                        assert(matches_chunks(lres.node, lres.chunks));
                        lemma_matches_frame(r0, chunks, lres.chunks);
                        assert(matches_chunks(rres.node, rres.chunks));
                        if l0.range.spec_intersects(q) {
                            lemma_matches_frame(lres.node, lres.chunks, rres.chunks);
                        } else {
                            lemma_matches_frame(l0, chunks, rres.chunks);
                        }
                        assert(matches_chunks(out.node, out.chunks));
                    }
                    // Monotone knowledge composes across the two halves.
                    assert forall|b: int| v.data_byte(b) implies out.node.data_byte(b) by {
                        if b < l0.range.spec_end() {
                            assert(l0.data_byte(b));
                            assert(lres.node.data_byte(b));
                        } else {
                            assert(r0.data_byte(b));
                            assert(rres.node.data_byte(b));
                        }
                    }
                    if out.ok {
                        if !l0.range.spec_intersects(q) {
                            lemma_no_intersect_has(l0, q);
                        }
                        if !r0.range.spec_intersects(q) {
                            lemma_no_intersect_has(r0, q);
                        }
                        assert(lres.node.spec_has_range(q));
                        assert(rres.node.spec_has_range(q));
                        assert(out.node.spec_has_range(q));
                    }
                    assert(out.node.wf());
                    assert forall|b: int|
                        0 <= b < chunks.len() && !(v.range.offset <= b < v.range.spec_end())
                        implies out.chunks[b] == chunks[b] by {
                        assert(lres.chunks[b] == chunks[b]);
                        assert(rres.chunks[b] == lres.chunks[b]);
                    }
                    assert forall|b: int|
                        v.range.offset <= b < v.range.spec_end() && v.data_byte(b) implies out
                        .chunks[b] == chunks[b] by {
                        if b < l0.range.spec_end() {
                            assert(l0.data_byte(b));
                            assert(lres.chunks[b] == chunks[b]);
                            assert(rres.chunks[b] == lres.chunks[b]);
                        } else {
                            assert(r0.data_byte(b));
                            assert(lres.chunks[b] == chunks[b]);
                            assert(rres.chunks[b] == lres.chunks[b]);
                        }
                    }
                    if v.hashes_ok() {
                        assert(l0.hashes_ok());
                        assert(r0.hashes_ok());
                        assert(lres.node.hashes_ok());
                        assert(rres.node.hashes_ok());
                        assert(v.hash == parent_cv(l0.hash, r0.hash, v.is_root));
                        assert(out.node.hashes_ok());
                    }
                }
            }
        }
    }
}

/// No node that a decode walk for `q` would visit is missing: the chunk
/// nodes intersecting `q` are `Data`, and every interior node on the walk
/// is already promoted.
pub open spec fn no_walk_missing(v: NodeView, q: Range) -> bool
    decreases v,
{
    if v.range.spec_is_chunk() {
        !(v.children is Missing && v.range.spec_intersects(q))
    } else {
        match v.children {
            ChildrenView::Interior(l, r) => {
                &&& (l.range.spec_intersects(q) ==> no_walk_missing(*l, q))
                &&& (r.range.spec_intersects(q) ==> no_walk_missing(*r, q))
            },
            _ => false,
        }
    }
}

/// A successful decode walk leaves nothing missing on its own path.
pub proof fn lemma_decode_ready(v: NodeView, q: Range, input: Seq<u8>, pos: int, chunks: Seq<u8>)
    requires
        v.wf(),
        q.wf(),
        chunks.len() >= v.range.spec_end(),
        0 <= pos,
    ensures
        ({
            let out = spec_decode_node(v, q, input, pos, chunks);
            out.ok ==> no_walk_missing(out.node, q)
        }),
    decreases v.range.length,
{
    let out = spec_decode_node(v, q, input, pos, chunks);
    if !v.range.spec_is_chunk() {
        lemma_split_parts(v.range);
        if pos + 64 <= input.len() {
            let lh = input.subrange(pos, pos + 32);
            let rh = input.subrange(pos + 32, pos + 64);
            if parent_cv(lh, rh, v.is_root) == v.hash {
                let sp = v.range.spec_split().unwrap();
                let l0 = match v.children {
                    ChildrenView::Interior(l, _) => NodeView { range: sp.0, ..*l },
                    _ => NodeView {
                        hash: lh,
                        range: sp.0,
                        is_root: false,
                        children: ChildrenView::Missing,
                    },
                };
                let r0 = match v.children {
                    ChildrenView::Interior(_, r) => NodeView { range: sp.1, ..*r },
                    _ => NodeView {
                        hash: rh,
                        range: sp.1,
                        is_root: false,
                        children: ChildrenView::Missing,
                    },
                };
                match v.children {
                    ChildrenView::Interior(l, r) => {
                        assert(l0 == *l);
                        assert(r0 == *r);
                    },
                    _ => {},
                }
                assert(l0.wf());
                assert(r0.wf());
                if l0.range.spec_intersects(q) {
                    lemma_decode_ready(l0, q, input, pos + 64, chunks);
                    lemma_decode_preserves(l0, q, input, pos + 64, chunks);
                }
                let lres = if l0.range.spec_intersects(q) {
                    spec_decode_node(l0, q, input, pos + 64, chunks)
                } else {
                    DecodeOut {
                        ok: true,
                        err: StoreError::FormatError,
                        node: l0,
                        pos: pos + 64,
                        chunks,
                    }
                };
                if lres.ok {
                    if r0.range.spec_intersects(q) {
                        lemma_decode_ready(r0, q, input, lres.pos, lres.chunks);
                        lemma_decode_preserves(l0, q, input, pos + 64, chunks);
                    }
                }
            }
        }
    }
}

/// Decoding anything into a tree whose walk for `q` meets nothing missing
/// changes neither the tree nor the chunk bytes: in particular, absorbing
/// the same slice a second time is a no-op.
pub proof fn lemma_decode_noop(v: NodeView, q: Range, input: Seq<u8>, pos: int, chunks: Seq<u8>)
    requires
        v.wf(),
        q.wf(),
        no_walk_missing(v, q),
    ensures
        ({
            let out = spec_decode_node(v, q, input, pos, chunks);
            out.node == v && out.chunks == chunks
        }),
    decreases v.range.length,
{
    let out = spec_decode_node(v, q, input, pos, chunks);
    if !v.range.spec_is_chunk() {
        lemma_split_parts(v.range);
        if pos + 64 <= input.len() {
            let lh = input.subrange(pos, pos + 32);
            let rh = input.subrange(pos + 32, pos + 64);
            if parent_cv(lh, rh, v.is_root) == v.hash {
                match v.children {
                    ChildrenView::Interior(l, r) => {
                        let sp = v.range.spec_split().unwrap();
                        let l0 = NodeView { range: sp.0, ..*l };
                        let r0 = NodeView { range: sp.1, ..*r };
                        assert(l0 == *l);
                        assert(r0 == *r);
                        if l0.range.spec_intersects(q) {
                            lemma_decode_noop(l0, q, input, pos + 64, chunks);
                        }
                        let lres = if l0.range.spec_intersects(q) {
                            spec_decode_node(l0, q, input, pos + 64, chunks)
                        } else {
                            DecodeOut {
                                ok: true,
                                err: StoreError::FormatError,
                                node: l0,
                                pos: pos + 64,
                                chunks,
                            }
                        };
                        if lres.ok {
                            if r0.range.spec_intersects(q) {
                                lemma_decode_noop(r0, q, input, lres.pos, lres.chunks);
                            }
                        }
                        assert(out.node == v);
                    },
                    _ => {},
                }
            }
        }
    }
}

/// Idempotent absorb: after one successful decode of a slice for `q`, a
/// second decode of the same slice (or any other) for `q` leaves the tree
/// and the chunk bytes byte-identical.
pub proof fn lemma_absorb_idempotent(
    v: NodeView,
    q: Range,
    input: Seq<u8>,
    pos: int,
    chunks: Seq<u8>,
)
    requires
        v.wf(),
        q.wf(),
        chunks.len() >= v.range.spec_end(),
        0 <= pos,
    ensures
        ({
            let out = spec_decode_node(v, q, input, pos, chunks);
            out.ok ==> ({
                let out2 = spec_decode_node(out.node, q, input, pos, out.chunks);
                out2.node == out.node && out2.chunks == out.chunks
            })
        }),
{
    let out = spec_decode_node(v, q, input, pos, chunks);
    lemma_decode_preserves(v, q, input, pos, chunks);
    lemma_decode_ready(v, q, input, pos, chunks);
    if out.ok {
        lemma_decode_noop(out.node, q, input, pos, out.chunks);
    }
}

/// A subtree that holds an interval reaching its own end has its trailing
/// chunk verified.
pub proof fn lemma_holds_tail(v: NodeView, q: Range)
    requires
        v.wf(),
        v.spec_has_range(q),
        v.range.length > 0 ==> (q.spec_end() >= v.range.spec_end() && q.offset
            < v.range.spec_end()),
        v.range.length == 0 ==> q == v.range,
    ensures
        v.spec_last_data(),
    decreases v,
{
    match v.children {
        ChildrenView::Missing => {
            assert(v.range.spec_intersects(q));
        },
        ChildrenView::Data => {},
        ChildrenView::Interior(l, r) => {
            lemma_split_parts(v.range);
            lemma_holds_tail(*r, q);
        },
    }
}

/// A complete stream's length is known: once the whole range is held, the
/// trailing chunk is verified, so `length()` answers.
pub proof fn lemma_complete_length(t: Tree)
    requires
        t.wf(),
        t.root@.spec_has_range(t.root@.range),
    ensures
        t.root@.spec_last_data(),
{
    lemma_holds_tail(t.root@, t.root@.range);
}

/// Tampering with the length header: flipping any byte of a slice's 8-byte
/// header makes it announce a different length, so decoding rejects the
/// slice with `FormatError` before touching any state. (Tampering below
/// the header is caught by the hash checks; that rests on BLAKE3's
/// collision resistance and is exercised by tests, not proved.)
pub proof fn lemma_header_tamper(length: u64, s1: Seq<u8>, s2: Seq<u8>, i: int)
    requires
        s1.len() >= 8,
        s2.len() >= 8,
        0 <= i < 8,
        s2[i] != s1[i],
        forall|j: int| 0 <= j < 8 && j != i ==> s2[j] == s1[j],
        spec_u64_from_le_bytes(s1.subrange(0, 8)) == length,
    ensures
        spec_u64_from_le_bytes(s2.subrange(0, 8)) != length,
{
    lemma_auto_spec_u64_to_from_le_bytes();
    if spec_u64_from_le_bytes(s2.subrange(0, 8)) == length {
        assert(spec_u64_to_le_bytes(spec_u64_from_le_bytes(s1.subrange(0, 8))) == s1.subrange(
            0,
            8,
        ));
        assert(spec_u64_to_le_bytes(spec_u64_from_le_bytes(s2.subrange(0, 8))) == s2.subrange(
            0,
            8,
        ));
        assert(s1.subrange(0, 8)[i] == s2.subrange(0, 8)[i]);
    }
}

/// Slice round-trip: a range proof encoded from a hash-consistent tree
/// whose chunk bytes match it decodes successfully into a freshly allocated
/// tree with the same root hash, consuming exactly the proof's bytes, and
/// every byte it verifies comes out equal to the sender's.
#[verifier::rlimit(100)]
#[verifier::spinoff_prover]
pub proof fn lemma_slice_round_trip(
    src: NodeView,
    dst: NodeView,
    q: Range,
    input: Seq<u8>,
    pos: int,
    src_chunks: Seq<u8>,
    dst_chunks: Seq<u8>,
)
    requires
        src.wf(),
        src.hashes_ok(),
        matches_chunks(src, src_chunks),
        src_chunks.len() >= src.range.spec_end(),
        q.wf(),
        spec_encode_node(src, q, src_chunks) is Some,
        dst.wf(),
        dst.children is Missing,
        dst.hash == src.hash,
        dst.range == src.range,
        dst.is_root == src.is_root,
        dst_chunks.len() >= src.range.spec_end(),
        0 <= pos,
        pos + spec_encode_node(src, q, src_chunks).unwrap().len() <= input.len(),
        input.subrange(pos, pos + spec_encode_node(src, q, src_chunks).unwrap().len())
            == spec_encode_node(src, q, src_chunks).unwrap(),
    ensures
        ({
            let body = spec_encode_node(src, q, src_chunks).unwrap();
            let out = spec_decode_node(dst, q, input, pos, dst_chunks);
            &&& out.ok
            &&& out.pos == pos + body.len()
            &&& forall|b: int|
                src.range.offset <= b < src.range.spec_end() && out.node.data_byte(b)
                    ==> out.chunks[b] == src_chunks[b]
        }),
    decreases src,
{
    let body = spec_encode_node(src, q, src_chunks).unwrap();
    let out = spec_decode_node(dst, q, input, pos, dst_chunks);
    if src.range.spec_is_chunk() {
        if src.range.spec_intersects(q) {
            assert(src.children is Data);
            let off = src.range.offset as int;
            let end = src.range.spec_end();
            let len = src.range.length as int;
            assert(body == src_chunks.subrange(off, end));
            assert(body.len() == len);
            let payload = input.subrange(pos, pos + len);
            assert(payload == body);
            assert(chunk_cv(dst.range.spec_index(), payload, dst.is_root) == dst.hash);
            assert(out.ok);
            assert(out.chunks == upd_bytes(dst_chunks, off, payload));
            assert forall|b: int|
                src.range.offset <= b < src.range.spec_end() && out.node.data_byte(b) implies out
                .chunks[b] == src_chunks[b] by {
                assert(out.chunks == dst_chunks.subrange(0, off) + payload + dst_chunks.subrange(
                    off + len,
                    dst_chunks.len() as int,
                ));
                assert(out.chunks[b] == payload[b - off]);
                assert(payload[b - off] == src_chunks[b]);
            }
        }
    } else {
        lemma_split_parts(src.range);
        match src.children {
            ChildrenView::Interior(ls, rs) => {
                let lpart = if ls.range.spec_intersects(q) {
                    spec_encode_node(*ls, q, src_chunks)
                } else {
                    Some(Seq::<u8>::empty())
                };
                let rpart = if rs.range.spec_intersects(q) {
                    spec_encode_node(*rs, q, src_chunks)
                } else {
                    Some(Seq::<u8>::empty())
                };
                let lb = lpart.unwrap();
                let rb = rpart.unwrap();
                assert(ls.wf() && rs.wf());
                assert(ls.hash.len() == 32 && rs.hash.len() == 32);
                assert(body == ls.hash + rs.hash + lb + rb);
                assert(body.len() == 64 + lb.len() + rb.len());
                let lh = input.subrange(pos, pos + 32);
                let rh = input.subrange(pos + 32, pos + 64);
                assert(lh =~= body.subrange(0, 32));
                assert(body.subrange(0, 32) =~= ls.hash);
                assert(rh =~= body.subrange(32, 64));
                assert(body.subrange(32, 64) =~= rs.hash);
                assert(parent_cv(lh, rh, dst.is_root) == dst.hash);
                let sp = dst.range.spec_split().unwrap();
                assert(sp.0 == ls.range && sp.1 == rs.range);
                let l0 = NodeView {
                    hash: lh,
                    range: sp.0,
                    is_root: false,
                    children: ChildrenView::Missing,
                };
                let r0 = NodeView {
                    hash: rh,
                    range: sp.1,
                    is_root: false,
                    children: ChildrenView::Missing,
                };
                assert(l0.wf() && r0.wf());
                let lres = if l0.range.spec_intersects(q) {
                    spec_decode_node(l0, q, input, pos + 64, dst_chunks)
                } else {
                    DecodeOut {
                        ok: true,
                        err: StoreError::FormatError,
                        node: l0,
                        pos: pos + 64,
                        chunks: dst_chunks,
                    }
                };
                if ls.range.spec_intersects(q) {
                    assert(input.subrange(pos + 64, pos + 64 + lb.len() as int)
                        =~= body.subrange(64, 64 + lb.len() as int));
                    assert(body.subrange(64, 64 + lb.len() as int) =~= lb);
                    lemma_slice_round_trip(*ls, l0, q, input, pos + 64, src_chunks, dst_chunks);
                    lemma_decode_preserves(l0, q, input, pos + 64, dst_chunks);
                }
                assert(lres.ok && lres.pos == pos + 64 + lb.len());
                assert(lres.chunks.len() == dst_chunks.len());
                let rres = if r0.range.spec_intersects(q) {
                    spec_decode_node(r0, q, input, lres.pos, lres.chunks)
                } else {
                    DecodeOut {
                        ok: true,
                        err: StoreError::FormatError,
                        node: r0,
                        pos: lres.pos,
                        chunks: lres.chunks,
                    }
                };
                if rs.range.spec_intersects(q) {
                    assert(input.subrange(
                        pos + 64 + lb.len(),
                        pos + 64 + lb.len() + rb.len(),
                    ) =~= body.subrange(
                        64 + lb.len() as int,
                        64 + lb.len() + rb.len() as int,
                    ));
                    assert(body.subrange(64 + lb.len() as int, 64 + lb.len() + rb.len() as int) =~= rb);
                    lemma_slice_round_trip(
                        *rs,
                        r0,
                        q,
                        input,
                        lres.pos,
                        src_chunks,
                        lres.chunks,
                    );
                    lemma_decode_preserves(r0, q, input, lres.pos, lres.chunks);
                }
                assert(rres.ok && rres.pos == pos + body.len());
                assert(out.ok && out.pos == pos + body.len());
                assert forall|b: int|
                    src.range.offset <= b < src.range.spec_end() && out.node.data_byte(b) implies
                    out.chunks[b] == src_chunks[b] by {
                    if b < l0.range.spec_end() {
                        assert(out.node.data_byte(b) == lres.node.data_byte(b));
                        if lres.node.data_byte(b) {
                            assert(lres.chunks[b] == src_chunks[b]);
                            assert(rres.chunks[b] == lres.chunks[b]);
                        }
                    } else {
                        assert(out.node.data_byte(b) == rres.node.data_byte(b));
                        if rres.node.data_byte(b) {
                            assert(rres.chunks[b] == src_chunks[b]);
                        }
                    }
                }
            },
            _ => {
                assert(false);
            },
        }
    }
}

/// A subtree that does not intersect `q` holds `q` vacuously.
pub proof fn lemma_no_intersect_has(v: NodeView, q: Range)
    requires
        v.wf(),
        !v.range.spec_intersects(q),
    ensures
        v.spec_has_range(q),
    decreases v,
{
    match v.children {
        ChildrenView::Interior(l, r) => {
            lemma_split_parts(v.range);
            assert(!l.range.spec_intersects(q));
            assert(!r.range.spec_intersects(q));
            lemma_no_intersect_has(*l, q);
            lemma_no_intersect_has(*r, q);
        },
        _ => {},
    }
}

/// A range proof exists exactly when the range is held and the root node is
/// not an unexplored interior node: encode fails with `MissingNode` iff the
/// range is not held (or nothing at all is held yet).
pub proof fn lemma_encode_ok(v: NodeView, q: Range, chunks: Seq<u8>)
    requires
        v.wf(),
    ensures
        spec_encode_node(v, q, chunks) is Some <==> (v.spec_has_range(q) && (
        v.range.spec_is_chunk() || !(v.children is Missing))),
    decreases v,
{
    match v.children {
        ChildrenView::Interior(l, r) => {
            lemma_split_parts(v.range);
            lemma_encode_ok(*l, q, chunks);
            lemma_encode_ok(*r, q, chunks);
            if !l.range.spec_intersects(q) {
                lemma_no_intersect_has(*l, q);
            } else if l.children is Missing && !l.range.spec_is_chunk() {
                assert(!l.spec_has_range(q));
            }
            if !r.range.spec_intersects(q) {
                lemma_no_intersect_has(*r, q);
            } else if r.children is Missing && !r.range.spec_is_chunk() {
                assert(!r.spec_has_range(q));
            }
            assert(v.spec_has_range(q) == (l.spec_has_range(q) && r.spec_has_range(q)));
        },
        _ => {},
    }
}

/// On an interval with at least one byte, `spec_has_range` says exactly that
/// every byte the tree covers inside `q` lies in a `Data` chunk.
pub proof fn lemma_has_range_bytes(v: NodeView, q: Range)
    requires
        v.wf(),
        q.wf(),
        q.length > 0,
        v.range.length > 0 || v.range.offset == 0,
    ensures
        v.spec_has_range(q) == (forall|b: int|
            v.range.offset <= b < v.range.spec_end() && q.offset <= b < q.spec_end()
                ==> v.data_byte(b)),
    decreases v,
{
    match v.children {
        ChildrenView::Missing => {
            if v.range.spec_intersects(q) {
                assert(v.range.length > 0);
                let w = if v.range.offset >= q.offset {
                    v.range.offset as int
                } else {
                    q.offset as int
                };
                assert(v.range.offset <= w < v.range.spec_end() && q.offset <= w < q.spec_end());
                assert(!v.data_byte(w));
            }
        },
        ChildrenView::Data => {},
        ChildrenView::Interior(l, r) => {
            lemma_split_parts(v.range);
            lemma_has_range_bytes(*l, q);
            lemma_has_range_bytes(*r, q);
            assert(l.range.spec_end() == r.range.offset);
            if v.spec_has_range(q) {
                assert(forall|b: int|
                    v.range.offset <= b < v.range.spec_end() && q.offset <= b < q.spec_end()
                        ==> v.data_byte(b)) by {
                    assert forall|b: int|
                        v.range.offset <= b < v.range.spec_end() && q.offset <= b < q.spec_end()
                        implies v.data_byte(b) by {
                        if b < l.range.spec_end() {
                            assert(l.data_byte(b));
                        } else {
                            assert(r.data_byte(b));
                        }
                    }
                }
            } else {
                if !l.spec_has_range(q) {
                    let b = choose|b: int|
                        l.range.offset <= b < l.range.spec_end() && q.offset <= b < q.spec_end()
                            && !l.data_byte(b);
                    assert(!v.data_byte(b));
                } else {
                    let b = choose|b: int|
                        r.range.offset <= b < r.range.spec_end() && q.offset <= b < q.spec_end()
                            && !r.data_byte(b);
                    assert(!v.data_byte(b));
                }
            }
        },
    }
}

impl Node {
    /// The root placeholder for a stream of `length` bytes: hash and
    /// geometry known, nothing verified.
    pub fn new(hash: Vec<u8>, length: u64) -> (r: Node)
        ensures
            r@ == (NodeView {
                hash: hash@,
                range: Range { offset: 0u64, length },
                is_root: true,
                children: ChildrenView::Missing,
            }),
    {
        Node { hash, range: Range::new(0, length), is_root: true, children: Children::Missing }
    }

    /// A verified chunk node.
    pub fn chunk(hash: Vec<u8>, range: Range, is_root: bool) -> (r: Node)
        ensures
            r@ == (NodeView { hash: hash@, range, is_root, children: ChildrenView::Data }),
    {
        Node { hash, range, is_root, children: Children::Data }
    }

    /// An interior node over its two children.
    pub fn subtree(hash: Vec<u8>, range: Range, is_root: bool, left: Node, right: Node) -> (r:
        Node)
        ensures
            r@ == (NodeView {
                hash: hash@,
                range,
                is_root,
                children: ChildrenView::Interior(Box::new(left@), Box::new(right@)),
            }),
    {
        Node {
            hash,
            range,
            is_root,
            children: Children::Interior(Box::new(left), Box::new(right)),
        }
    }

    fn is_missing(&self) -> (r: bool)
        ensures
            r == (self@.children is Missing),
    {
        match &self.children {
            Children::Missing => true,
            _ => false,
        }
    }

    fn insertions_node(&self, out: &mut Vec<Insertion>)
        ensures
            insertion_views(final(out)@) == insertion_views(old(out)@) + spec_insertions(self@),
        decreases *self,
    {
        match &self.children {
            Children::Missing => {
                proof {
                    assert(insertion_views(out@) =~= insertion_views(old(out)@)
                        + spec_insertions(self@));
                }
            },
            Children::Data => {
                let hash = bytes_of(self.hash.as_slice(), 0, self.hash.len());
                proof {
                    assert(hash@ =~= self.hash@);
                }
                out.push(Insertion::Chunk(hash));
                proof {
                    assert(insertion_views(out@) =~= insertion_views(old(out)@)
                        + spec_insertions(self@));
                }
            },
            Children::Interior(l, r) => {
                let hash = bytes_of(self.hash.as_slice(), 0, self.hash.len());
                let lh = bytes_of(l.hash.as_slice(), 0, l.hash.len());
                let rh = bytes_of(r.hash.as_slice(), 0, r.hash.len());
                proof {
                    assert(hash@ =~= self.hash@);
                    assert(lh@ =~= l.hash@);
                    assert(rh@ =~= r.hash@);
                }
                out.push(Insertion::Parent(hash, lh, rh));
                let ghost mid1 = out@;
                proof {
                    assert(insertion_views(mid1) =~= insertion_views(old(out)@) + seq![
                        InsertionView::Parent(self@.hash, l@.hash, r@.hash),
                    ]);
                }
                l.insertions_node(out);
                r.insertions_node(out);
                proof {
                    assert(insertion_views(out@) =~= insertion_views(old(out)@)
                        + spec_insertions(self@));
                }
            },
        }
    }

    fn last_chunk_node(&self) -> (r: &Node)
        ensures
            r@ == self@.spec_last_chunk(),
        decreases *self,
    {
        match &self.children {
            Children::Interior(_, right) => right.last_chunk_node(),
            _ => self,
        }
    }

    fn has_range_node(&self, q: &Range) -> (r: bool)
        requires
            self@.wf(),
            q.wf(),
        ensures
            r == self@.spec_has_range(*q),
        decreases *self,
    {
        if self.is_missing() && self.range.intersects(q) {
            return false;
        }
        match &self.children {
            Children::Interior(l, r) => {
                let lr = l.has_range_node(q);
                let rr = r.has_range_node(q);
                lr && rr
            },
            _ => true,
        }
    }

    fn last_data(&self) -> (r: bool)
        ensures
            r == self@.spec_last_data(),
        decreases *self,
    {
        match &self.children {
            Children::Missing => false,
            Children::Data => true,
            Children::Interior(_, right) => right.last_data(),
        }
    }

    fn inner_encode_range(&self, q: &Range, out: &mut Vec<u8>, chunks: &[u8]) -> (r: Result<
        (),
        StoreError,
    >)
        requires
            self@.wf(),
            q.wf(),
            chunks@.len() >= self@.range.spec_end(),
        ensures
            r is Ok <==> spec_encode_node(self@, *q, chunks@) is Some,
            r is Ok ==> final(out)@ == old(out)@ + spec_encode_node(self@, *q, chunks@).unwrap(),
            r is Err ==> r == Err::<(), StoreError>(StoreError::MissingNode),
        decreases *self,
    {
        if self.range.is_chunk() {
            if self.range.intersects(q) {
                match &self.children {
                    Children::Data => {
                        let n = chunks.len();
                        proof {
                            assert(self.range.offset <= self.range.spec_end() <= n);
                        }
                        let off = self.range.offset() as usize;
                        let end = self.range.end() as usize;
                        proof {
                            assert(off == self.range.offset);
                            assert(end == self.range.spec_end());
                        }
                        let ghost pre = out@;
                        out.extend_from_slice(&chunks[off..end]);
                        proof {
                            lemma_extend_u8(pre, out@, chunks@.subrange(off as int, end as int));
                        }
                        Ok(())
                    },
                    _ => Err(StoreError::MissingNode),
                }
            } else {
                Ok(())
            }
        } else {
            match &self.children {
                Children::Interior(l, r) => {
                    proof {
                        lemma_split_parts(self.range);
                        assert(l@.wf());
                        assert(r@.wf());
                    }
                    let ghost pre = out@;
                    out.extend_from_slice(l.hash.as_slice());
                    proof {
                        lemma_extend_u8(pre, out@, l.hash@);
                    }
                    let ghost pre2 = out@;
                    out.extend_from_slice(r.hash.as_slice());
                    proof {
                        lemma_extend_u8(pre2, out@, r.hash@);
                    }
                    if l.range.intersects(q) {
                        match l.inner_encode_range(q, out, chunks) {
                            Ok(()) => {},
                            Err(e) => {
                                return Err(e);
                            },
                        }
                    }
                    if r.range.intersects(q) {
                        match r.inner_encode_range(q, out, chunks) {
                            Ok(()) => {},
                            Err(e) => {
                                return Err(e);
                            },
                        }
                    }
                    proof {
                        assert(out@ =~= old(out)@ + spec_encode_node(self@, *q, chunks@).unwrap());
                    }
                    Ok(())
                },
                _ => Err(StoreError::MissingNode),
            }
        }
    }

    #[verifier::rlimit(60)]
    fn inner_decode_range(
        &mut self,
        q: &Range,
        input: &[u8],
        pos: &mut usize,
        chunks: &mut Vec<u8>,
    ) -> (r: Result<(), StoreError>)
        requires
            old(self)@.wf(),
            q.wf(),
            old(chunks)@.len() >= old(self)@.range.spec_end(),
            *old(pos) <= input@.len(),
        ensures
            ({
                let out = spec_decode_node(old(self)@, *q, input@, *old(pos) as int, old(chunks)@);
                &&& (r is Ok) == out.ok
                &&& final(self)@ == out.node
                &&& *final(pos) as int == out.pos
                &&& final(chunks)@ == out.chunks
                &&& (r matches Err(e) ==> e == out.err)
            }),
            *old(pos) <= *final(pos) <= input@.len(),
            final(chunks)@.len() == old(chunks)@.len(),
        decreases old(self)@.range.length,
    {
        let ghost out = spec_decode_node(old(self)@, *q, input@, *old(pos) as int, old(chunks)@);
        if self.range.is_chunk() {
            if self.is_missing() && self.range.intersects(q) {
                let len = self.range.length() as usize;
                if input.len() - *pos < len {
                    return Err(StoreError::FormatError);
                }
                let p = *pos;
                let hash = chunk_hash(self.range.index(), &input[p..p + len], self.is_root);
                if !bytes_eq(hash.as_slice(), self.hash.as_slice()) {
                    return Err(StoreError::CryptoMismatch);
                }
                let n = chunks.len();
                proof {
                    assert(self.range.offset <= self.range.spec_end() <= n);
                }
                let off = self.range.offset() as usize;
                proof {
                    assert(off == self.range.offset);
                    assert(off + len <= chunks@.len());
                }
                crate::hash::copy_into(chunks, off, input, p, len);
                self.children = Children::Data;
                *pos = p + len;
                proof {
                    let payload = input@.subrange(p as int, p as int + len);
                    assert(chunks@ =~= upd_bytes(old(chunks)@, off as int, payload));
                    assert(final(self)@ == out.node);
                }
                Ok(())
            } else {
                Ok(())
            }
        } else {
            proof {
                lemma_split_parts(self.range);
            }
            if input.len() - *pos < 64 {
                return Err(StoreError::FormatError);
            }
            let p = *pos;
            let lh = bytes_of(input, p, p + 32);
            let rh = bytes_of(input, p + 32, p + 64);
            let expected = parent_hash(lh.as_slice(), rh.as_slice(), self.is_root);
            if !bytes_eq(expected.as_slice(), self.hash.as_slice()) {
                return Err(StoreError::CryptoMismatch);
            }
            *pos = p + 64;
            if self.is_missing() {
                let parts = self.range.split().unwrap();
                let left = Node {
                    hash: lh,
                    range: parts.0,
                    is_root: false,
                    children: Children::Missing,
                };
                let right = Node {
                    hash: rh,
                    range: parts.1,
                    is_root: false,
                    children: Children::Missing,
                };
                self.children = Children::Interior(Box::new(left), Box::new(right));
            }
            match &mut self.children {
                Children::Interior(l, r) => {
                    proof {
                        assert(l@.wf());
                        assert(r@.wf());
                    }
                    if l.range.intersects(q) {
                        match l.inner_decode_range(q, input, pos, chunks) {
                            Ok(()) => {},
                            Err(e) => {
                                return Err(e);
                            },
                        }
                    }
                    if r.range.intersects(q) {
                        match r.inner_decode_range(q, input, pos, chunks) {
                            Ok(()) => {},
                            Err(e) => {
                                return Err(e);
                            },
                        }
                    }
                    Ok(())
                },
                _ => {
                    proof {
                        assert(false);
                    }
                    Err(StoreError::FormatError)
                },
            }
        }
    }

    fn inner_ranges(&self, rs: &mut Vec<Range>)
        requires
            self@.wf(),
            forall|i: int| 0 <= i < old(rs)@.len() ==> (#[trigger] old(rs)@[i]).wf(),
        ensures
            final(rs)@ == spec_cover_acc(self@, old(rs)@, false),
            forall|i: int| 0 <= i < final(rs)@.len() ==> (#[trigger] final(rs)@[i]).wf(),
        decreases *self,
    {
        match &self.children {
            Children::Interior(l, r) => {
                l.inner_ranges(rs);
                r.inner_ranges(rs);
            },
            Children::Data => push_coalesced(rs, self.range),
            Children::Missing => {},
        }
    }

    fn inner_missing_ranges(&self, rs: &mut Vec<Range>)
        requires
            self@.wf(),
            forall|i: int| 0 <= i < old(rs)@.len() ==> (#[trigger] old(rs)@[i]).wf(),
        ensures
            final(rs)@ == spec_cover_acc(self@, old(rs)@, true),
            forall|i: int| 0 <= i < final(rs)@.len() ==> (#[trigger] final(rs)@[i]).wf(),
        decreases *self,
    {
        match &self.children {
            Children::Interior(l, r) => {
                l.inner_missing_ranges(rs);
                r.inner_missing_ranges(rs);
            },
            Children::Missing => push_coalesced(rs, self.range),
            Children::Data => {},
        }
    }
}

/// Append an interval, merging it into the last entry when adjacent.
fn push_coalesced(rs: &mut Vec<Range>, nr: Range)
    requires
        nr.wf(),
        forall|i: int| 0 <= i < old(rs)@.len() ==> (#[trigger] old(rs)@[i]).wf(),
    ensures
        final(rs)@ == spec_push_coalesced(old(rs)@, nr),
        forall|i: int| 0 <= i < final(rs)@.len() ==> (#[trigger] final(rs)@[i]).wf(),
{
    let n = rs.len();
    if n > 0 {
        let last = rs[n - 1];
        if last.end() == nr.offset {
            rs.pop();
            rs.push(Range::new(last.offset, last.length + nr.length));
            proof {
                assert(rs@ =~= spec_push_coalesced(old(rs)@, nr));
            }
            return;
        }
    }
    rs.push(nr);
    proof {
        assert(rs@ =~= spec_push_coalesced(old(rs)@, nr));
    }
}

/// A stream's tree: the identifier it belongs to and the root node. Nodes
/// are populated additively by verification and never mutated away from
/// `Data` or `Interior`.
#[derive(Debug)]
pub struct Tree {
    pub id: StreamId,
    pub root: Node,
}

impl PartialEq for Tree {
    fn eq(&self, other: &Tree) -> (r: bool) {
        bytes_eq(self.root.hash.as_slice(), other.root.hash.as_slice())
    }
}

impl vstd::std_specs::cmp::PartialEqSpecImpl for Tree {
    open spec fn obeys_eq_spec() -> bool {
        true
    }

    open spec fn eq_spec(&self, other: &Tree) -> bool {
        self.root@.hash == other.root@.hash
    }
}

impl Tree {
    /// The tree hangs under a well-formed identifier, and its root covers
    /// exactly `[0, id.length)` with the identifier's hash.
    pub open spec fn wf(self) -> bool {
        &&& self.id.wf()
        &&& self.root@.wf()
        &&& self.root@.is_root
        &&& self.root@.hash == self.id.hash@
        &&& self.root@.range == (Range { offset: 0u64, length: self.id.length })
    }

    /// A fresh handle on a stream's tree: nothing verified yet, the root is
    /// `Missing`.
    pub fn open(id: StreamId) -> (r: Tree)
        requires
            id.wf(),
        ensures
            r.wf(),
            r.id == id,
            r.root@.children is Missing,
    {
        let hash = bytes_of(id.hash.as_slice(), 0, 32);
        let length = id.length;
        proof {
            assert(id.hash@.subrange(0, 32) =~= id.hash@);
        }
        let root = Node {
            hash,
            range: Range::new(0, length),
            is_root: true,
            children: Children::Missing,
        };
        Tree { id, root }
    }

    pub fn id(&self) -> (r: &StreamId)
        ensures
            r == self.id,
    {
        &self.id
    }

    pub fn hash(&self) -> (r: &Vec<u8>)
        ensures
            r@ == self.root@.hash,
    {
        &self.root.hash
    }

    pub fn range(&self) -> (r: Range)
        ensures
            r == self.root@.range,
    {
        self.root.range
    }

    pub fn is_root(&self) -> (r: bool)
        ensures
            r == self.root@.is_root,
    {
        self.root.is_root
    }

    pub fn is_chunk(&self) -> (r: bool)
        ensures
            r == self.root@.range.spec_is_chunk(),
    {
        self.root.range.is_chunk()
    }

    /// The key-value records of every known node, in pre-order: what a
    /// persistent metadata store keeps for this stream.
    pub fn insertions(&self) -> (r: Vec<Insertion>)
        ensures
            insertion_views(r@) == spec_insertions(self.root@),
    {
        let mut out: Vec<Insertion> = Vec::new();
        proof {
            assert(insertion_views(out@) =~= Seq::<InsertionView>::empty());
        }
        self.root.insertions_node(&mut out);
        out
    }

    /// Nothing below the root has been verified yet.
    pub fn is_missing(&self) -> (r: bool)
        ensures
            r == (self.root@.children is Missing),
    {
        self.root.is_missing()
    }

    /// The root is a verified chunk (single-chunk streams only).
    pub fn as_chunk(&self) -> (r: Option<()>)
        ensures
            (r is Some) == (self.root@.children is Data),
    {
        match &self.root.children {
            Children::Data => Some(()),
            _ => None,
        }
    }

    /// The two child hashes of a promoted root.
    pub fn as_subtree(&self) -> (r: Option<(&Vec<u8>, &Vec<u8>)>)
        ensures
            (r is Some) == (self.root@.children is Interior),
            r matches Some(p) ==> (self.root@.children matches ChildrenView::Interior(l, rr)
                && p.0@ == l.hash && p.1@ == rr.hash),
    {
        match &self.root.children {
            Children::Interior(l, r) => {
                proof {
                    assert(self.root@.children == ChildrenView::Interior(
                        Box::new(l@),
                        Box::new(r@),
                    ));
                }
                Some((&l.hash, &r.hash))
            },
            _ => None,
        }
    }

    /// The root's left child, once promoted.
    pub fn left(&self) -> (r: Option<&Node>)
        ensures
            (r is Some) == (self.root@.children is Interior),
            r matches Some(n) ==> (self.root@.children matches ChildrenView::Interior(l, _)
                && n@ == *l),
    {
        match &self.root.children {
            Children::Interior(l, r) => {
                proof {
                    assert(self.root@.children == ChildrenView::Interior(
                        Box::new(l@),
                        Box::new(r@),
                    ));
                }
                Some(l)
            },
            _ => None,
        }
    }

    /// The root's right child, once promoted.
    pub fn right(&self) -> (r: Option<&Node>)
        ensures
            (r is Some) == (self.root@.children is Interior),
            r matches Some(n) ==> (self.root@.children matches ChildrenView::Interior(_, rr)
                && n@ == *rr),
    {
        match &self.root.children {
            Children::Interior(l, r) => {
                proof {
                    assert(self.root@.children == ChildrenView::Interior(
                        Box::new(l@),
                        Box::new(r@),
                    ));
                }
                Some(r)
            },
            _ => None,
        }
    }

    /// The deepest known node on the rightmost spine: the trailing chunk
    /// once that spine is fully explored.
    pub fn last_chunk(&self) -> (r: &Node)
        ensures
            r@ == self.root@.spec_last_chunk(),
    {
        self.root.last_chunk_node()
    }

    /// True exactly when every node of the tree that intersects `range` is
    /// verified; on a nonempty `range` that is: every covered byte lies in a
    /// `Data` chunk.
    pub fn has_range(&self, range: &Range) -> (r: bool)
        requires
            self.wf(),
            range.wf(),
        ensures
            r == self.root@.spec_has_range(*range),
            range.length > 0 ==> r == (forall|b: int|
                0 <= b < self.id.length && range.offset <= b < range.spec_end()
                    ==> self.root@.data_byte(b)),
    {
        proof {
            if range.length > 0 {
                lemma_has_range_bytes(self.root@, *range);
            }
        }
        self.root.has_range_node(range)
    }

    /// The whole stream is held.
    pub fn complete(&self) -> (r: bool)
        requires
            self.wf(),
        ensures
            r == self.root@.spec_has_range(self.root@.range),
    {
        let range = self.root.range;
        self.root.has_range_node(&range)
    }

    /// The coalesced list of byte intervals whose chunks are all verified,
    /// in ascending order; on a nonempty stream it covers exactly the bytes
    /// that lie in `Data` chunks.
    pub fn ranges(&self) -> (r: Vec<Range>)
        requires
            self.wf(),
        ensures
            r@ == spec_cover_acc(self.root@, Seq::empty(), false),
            self.id.length > 0 ==> ranges_ok(r@, self.id.length as int),
            self.id.length > 0 ==> forall|b: int|
                0 <= b < self.id.length ==> (in_ranges(r@, b) == self.root@.data_byte(b)),
    {
        proof {
            if self.id.length > 0 {
                lemma_cover_acc(self.root@, Seq::empty(), false);
            }
        }
        let mut rs: Vec<Range> = Vec::new();
        self.root.inner_ranges(&mut rs);
        rs
    }

    /// The dual list: coalesced byte intervals covered by missing subtrees,
    /// in ascending order; on a nonempty stream it covers exactly the bytes
    /// that do not lie in `Data` chunks.
    pub fn missing_ranges(&self) -> (r: Vec<Range>)
        requires
            self.wf(),
        ensures
            r@ == spec_cover_acc(self.root@, Seq::empty(), true),
            self.id.length > 0 ==> ranges_ok(r@, self.id.length as int),
            self.id.length > 0 ==> forall|b: int|
                0 <= b < self.id.length ==> (in_ranges(r@, b) == !self.root@.data_byte(b)),
    {
        proof {
            if self.id.length > 0 {
                lemma_cover_acc(self.root@, Seq::empty(), true);
            }
        }
        let mut rs: Vec<Range> = Vec::new();
        self.root.inner_missing_ranges(&mut rs);
        rs
    }

    /// Stream a range proof for `range` into `out`: an 8-byte little-endian
    /// stream length header, then the pre-order body of
    /// [`spec_encode_node`]. Fails with `MissingNode`, leaving `out` in an
    /// unspecified partially-written state, exactly when the body does not
    /// exist — that is, when the range is not fully held.
    pub fn encode_range_to(&self, range: &Range, out: &mut Vec<u8>, chunks: &[u8]) -> (r: Result<
        (),
        StoreError,
    >)
        requires
            self.wf(),
            range.wf(),
            chunks@.len() == self.id.length,
        ensures
            r is Ok <==> spec_encode_node(self.root@, *range, chunks@) is Some,
            r is Ok ==> final(out)@ == old(out)@ + spec_u64_to_le_bytes(self.id.length)
                + spec_encode_node(self.root@, *range, chunks@).unwrap(),
            r is Err ==> r == Err::<(), StoreError>(StoreError::MissingNode),
    {
        let ghost pre = out@;
        let mut header = u64_to_le_bytes(self.root.range.length());
        out.append(&mut header);
        let result = self.root.inner_encode_range(range, out, chunks);
        proof {
            if result is Ok {
                assert(out@ =~= pre + spec_u64_to_le_bytes(self.id.length) + spec_encode_node(
                    self.root@,
                    *range,
                    chunks@,
                ).unwrap());
            }
        }
        result
    }

    /// The range proof for `range` as a byte vector: header plus pre-order
    /// body. Fails with `MissingNode` exactly when the range is not fully
    /// held.
    pub fn encode_range(&self, range: &Range, chunks: &[u8]) -> (r: Result<Vec<u8>, StoreError>)
        requires
            self.wf(),
            range.wf(),
            chunks@.len() == self.id.length,
        ensures
            r is Ok <==> spec_encode_node(self.root@, *range, chunks@) is Some,
            r matches Ok(v) ==> v@ == spec_u64_to_le_bytes(self.id.length) + spec_encode_node(
                self.root@,
                *range,
                chunks@,
            ).unwrap(),
            r is Err ==> r == Err::<Vec<u8>, StoreError>(StoreError::MissingNode),
    {
        let mut out: Vec<u8> = Vec::new();
        match self.encode_range_to(range, &mut out, chunks) {
            Ok(()) => Ok(out),
            Err(e) => Err(e),
        }
    }

    /// The range proof for the whole stream.
    pub fn encode(&self, chunks: &[u8]) -> (r: Result<Vec<u8>, StoreError>)
        requires
            self.wf(),
            chunks@.len() == self.id.length,
        ensures
            r is Ok <==> spec_encode_node(self.root@, self.root@.range, chunks@) is Some,
            r matches Ok(v) ==> v@ == spec_u64_to_le_bytes(self.id.length) + spec_encode_node(
                self.root@,
                self.root@.range,
                chunks@,
            ).unwrap(),
            r is Err ==> r == Err::<Vec<u8>, StoreError>(StoreError::MissingNode),
    {
        let range = self.root.range;
        self.encode_range(&range, chunks)
    }

    /// Verify and absorb a range proof for `range`. The 8-byte header must
    /// announce exactly this stream's length (else `FormatError` and
    /// nothing changes); the rest of the slice is walked by
    /// [`spec_decode_node`] from offset 8, verifying every hash top-down
    /// before promoting a node or writing a byte. Whatever the outcome:
    /// knowledge only grows, bytes of already-verified chunks are never
    /// rewritten, and hash and chunk consistency are preserved. On success
    /// the whole of `range` is held afterwards.
    pub fn decode_range(&mut self, range: &Range, slice: &[u8], chunks: &mut Vec<u8>) -> (r:
        Result<(), StoreError>)
        requires
            old(self).wf(),
            range.wf(),
            old(chunks)@.len() == old(self).id.length,
        ensures
            final(self).id == old(self).id,
            final(self).wf(),
            final(chunks)@.len() == old(chunks)@.len(),
            (slice@.len() < 8 || spec_u64_from_le_bytes(slice@.subrange(0, 8)) != old(self).id.length) ==> (r == Err::<(), StoreError>(StoreError::FormatError) && final(self).root@ == old(self).root@ && final(chunks)@ == old(chunks)@),
            (slice@.len() >= 8 && spec_u64_from_le_bytes(slice@.subrange(0, 8)) == old(self).id.length) ==> ({
                let out = spec_decode_node(old(self).root@, *range, slice@, 8, old(chunks)@);
                &&& (r is Ok) == out.ok
                &&& final(self).root@ == out.node
                &&& final(chunks)@ == out.chunks
                &&& (r matches Err(e) ==> e == out.err)
            }),
            forall|b: int| old(self).root@.data_byte(b) ==> final(self).root@.data_byte(b),
            forall|b: int|
                0 <= b < old(chunks)@.len() && old(self).root@.data_byte(b) ==> final(chunks)@[b]
                    == old(chunks)@[b],
            old(self).root@.hashes_ok() ==> final(self).root@.hashes_ok(),
            (old(self).root@.hashes_ok() && matches_chunks(old(self).root@, old(chunks)@))
                ==> matches_chunks(final(self).root@, final(chunks)@),
            r is Ok ==> final(self).root@.spec_has_range(*range),
    {
        if slice.len() < 8 {
            return Err(StoreError::FormatError);
        }
        let length = u64_from_le_bytes(&slice[0..8]);
        if length != self.id.length {
            return Err(StoreError::FormatError);
        }
        let mut pos: usize = 8;
        proof {
            lemma_decode_preserves(self.root@, *range, slice@, 8, chunks@);
        }
        let r = self.root.inner_decode_range(range, slice, &mut pos, chunks);
        r
    }

    /// Verify and absorb a whole-stream proof.
    pub fn decode(&mut self, slice: &[u8], chunks: &mut Vec<u8>) -> (r: Result<(), StoreError>)
        requires
            old(self).wf(),
            old(chunks)@.len() == old(self).id.length,
        ensures
            final(self).id == old(self).id,
            final(self).wf(),
            final(chunks)@.len() == old(chunks)@.len(),
            (slice@.len() >= 8 && spec_u64_from_le_bytes(slice@.subrange(0, 8)) == old(self).id.length) ==> ({
                let out = spec_decode_node(
                    old(self).root@,
                    old(self).root@.range,
                    slice@,
                    8,
                    old(chunks)@,
                );
                &&& (r is Ok) == out.ok
                &&& final(self).root@ == out.node
                &&& final(chunks)@ == out.chunks
            }),
            forall|b: int| old(self).root@.data_byte(b) ==> final(self).root@.data_byte(b),
            old(self).root@.hashes_ok() ==> final(self).root@.hashes_ok(),
            (old(self).root@.hashes_ok() && matches_chunks(old(self).root@, old(chunks)@))
                ==> matches_chunks(final(self).root@, final(chunks)@),
            r is Ok ==> final(self).root@.spec_has_range(old(self).root@.range),
    {
        let range = self.root.range;
        self.decode_range(&range, slice, chunks)
    }

    /// Held and missing intervals partition the stream: on a nonempty
    /// stream every byte of `[0, length)` is covered by exactly one of
    /// `ranges()` and `missing_ranges()`, and both lists are coalesced —
    /// sorted, non-overlapping, with adjacent entries always merged.
    pub proof fn lemma_ranges_partition(self)
        requires
            self.wf(),
            self.id.length > 0,
        ensures
            ranges_ok(spec_cover_acc(self.root@, Seq::empty(), false), self.id.length as int),
            ranges_ok(spec_cover_acc(self.root@, Seq::empty(), true), self.id.length as int),
            forall|b: int|
                0 <= b < self.id.length ==> (in_ranges(
                    spec_cover_acc(self.root@, Seq::empty(), false),
                    b,
                ) <==> !in_ranges(spec_cover_acc(self.root@, Seq::empty(), true), b)),
    {
        lemma_cover_acc(self.root@, Seq::empty(), false);
        lemma_cover_acc(self.root@, Seq::empty(), true);
        assert forall|b: int| 0 <= b < self.id.length implies (in_ranges(
            spec_cover_acc(self.root@, Seq::empty(), false),
            b,
        ) <==> !in_ranges(spec_cover_acc(self.root@, Seq::empty(), true), b)) by {
            assert(in_ranges(spec_cover_acc(self.root@, Seq::empty(), false), b)
                == self.root@.data_byte(b));
            assert(in_ranges(spec_cover_acc(self.root@, Seq::empty(), true), b)
                == !self.root@.data_byte(b));
        }
    }

    /// The stream length, known once the trailing chunk is verified (its
    /// end is the root range's end by construction).
    pub fn length(&self) -> (r: Option<u64>)
        requires
            self.wf(),
        ensures
            r == if self.root@.spec_last_data() {
                Some(self.id.length)
            } else {
                Option::<u64>::None
            },
    {
        if self.root.last_data() {
            Some(self.id.length)
        } else {
            None
        }
    }
}

} // verus!
