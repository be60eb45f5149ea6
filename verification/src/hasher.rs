//! The streaming chunker and hasher: absorbs bytes, keeps a stack of
//! completed subtrees along the right spine, and finalizes into the full
//! tree with the stream's BLAKE3 root hash.

use crate::hash::{bytes_of, chunk_cv, chunk_hash, parent_cv, parent_hash};
use crate::mime::{spec_mime_code, Mime};
use crate::range::{
    is_pow2, largest_pow2_le, lemma_combined_split, lemma_div_add_aligned, lemma_largest_pow2_le,
    lemma_pow2_bounds, lemma_pow2_double, Range,
};
use crate::stream_id::StreamId;
use crate::tree::{
    lemma_matches_frame, matches_chunks, Children, ChildrenView, Node, NodeView, Tree,
};
use crate::CHUNK_SIZE;
use vstd::prelude::*;

verus! {

/// The BLAKE3 chaining value of the left-full chunk tree over `bytes`,
/// whose chunks start at index `first`: one chunk when the bytes fit in
/// one, else the parent value over the Bao split.
pub open spec fn tree_cv(bytes: Seq<u8>, first: int, is_root: bool) -> Seq<u8>
    decreases bytes.len(),
    via tree_cv_decreases
{
    if bytes.len() <= CHUNK_SIZE {
        chunk_cv(first, bytes, is_root)
    } else {
        let at = largest_pow2_le((bytes.len() - 1) as int / (CHUNK_SIZE as int)) * CHUNK_SIZE;
        parent_cv(
            tree_cv(bytes.subrange(0, at), first, false),
            tree_cv(bytes.subrange(at, bytes.len() as int), first + at / (CHUNK_SIZE as int), false),
            is_root,
        )
    }
}

#[via_fn]
proof fn tree_cv_decreases(bytes: Seq<u8>, first: int, is_root: bool) {
    if bytes.len() > CHUNK_SIZE {
        let n = (bytes.len() - 1) as int / (CHUNK_SIZE as int);
        assert(n >= 1) by (nonlinear_arith)
            requires
                bytes.len() > CHUNK_SIZE,
                CHUNK_SIZE == 1024,
                n == (bytes.len() - 1) as int / (CHUNK_SIZE as int),
        ;
        lemma_largest_pow2_le(n);
        let i = largest_pow2_le(n);
        assert(CHUNK_SIZE <= i * CHUNK_SIZE <= n * CHUNK_SIZE) by (nonlinear_arith)
            requires
                1 <= i <= n,
                CHUNK_SIZE == 1024,
        ;
        assert(n * CHUNK_SIZE <= bytes.len() - 1) by (nonlinear_arith)
            requires
                n == (bytes.len() - 1) as int / (CHUNK_SIZE as int),
                bytes.len() >= 1,
                CHUNK_SIZE == 1024,
        ;
    }
}

/// The BLAKE3 tree hash of a whole byte sequence.
pub open spec fn spec_tree_hash(bytes: Seq<u8>) -> Seq<u8> {
    tree_cv(bytes, 0, true)
}

/// Merging a left half that spans a power-of-two count of full chunks with
/// a right remainder of at most as many bytes is one parent step of the
/// tree hash.
pub proof fn lemma_tree_cv_merge(left: Seq<u8>, right: Seq<u8>, first: int, is_root: bool)
    requires
        left.len() as int % (CHUNK_SIZE as int) == 0,
        is_pow2(left.len() as int / (CHUNK_SIZE as int)),
        1 <= right.len() <= left.len(),
    ensures
        tree_cv(left + right, first, is_root) == parent_cv(
            tree_cv(left, first, false),
            tree_cv(right, first + left.len() as int / (CHUNK_SIZE as int), false),
            is_root,
        ),
{
    let c = left.len() as int / (CHUNK_SIZE as int);
    assert(c >= 1);
    assert(left.len() == c * CHUNK_SIZE) by (nonlinear_arith)
        requires
            left.len() as int % (CHUNK_SIZE as int) == 0,
            c == left.len() as int / (CHUNK_SIZE as int),
            CHUNK_SIZE == 1024,
    ;
    let total = left + right;
    let n = (total.len() - 1) as int / (CHUNK_SIZE as int);
    assert(c <= n < 2 * c) by (nonlinear_arith)
        requires
            left.len() == c * CHUNK_SIZE,
            1 <= right.len() <= left.len(),
            CHUNK_SIZE == 1024,
            total.len() == left.len() + right.len(),
            n == (total.len() - 1) as int / (CHUNK_SIZE as int),
            c >= 1,
    ;
    lemma_pow2_bounds(c, n);
    let at = largest_pow2_le(n) * CHUNK_SIZE;
    assert(at == left.len());
    assert(total.subrange(0, at) =~= left);
    assert(total.subrange(at, total.len() as int) =~= right);
}

/// The views of a stack of nodes.
pub open spec fn views(s: Seq<Node>) -> Seq<NodeView> {
    s.map_values(|n: Node| n@)
}

/// The right-spine stack: consecutive completed subtrees reaching from
/// byte `start` to byte `end` (the sequence's back is the stack's top, the
/// stream's most recent part), each spanning a power-of-two count of full
/// chunks, strictly shrinking towards the top: fully verified,
/// hash-consistent, consistent with the absorbed bytes, and each carrying
/// the tree hash of its byte segment.
pub open spec fn stack_ok(s: Seq<NodeView>, absorbed: Seq<u8>, start: int, end: int) -> bool
    decreases s.len(),
{
    if s.len() == 0 {
        start == end
    } else {
        let v = s.last();
        &&& v.range.spec_end() == end
        &&& CHUNK_SIZE <= v.range.length
        &&& v.range.length as int % (CHUNK_SIZE as int) == 0
        &&& is_pow2(v.range.length as int / (CHUNK_SIZE as int))
        &&& v.wf()
        &&& !v.is_root
        &&& v.hashes_ok()
        &&& v.all_data()
        &&& matches_chunks(v, absorbed)
        &&& end <= absorbed.len()
        &&& v.hash == tree_cv(
            absorbed.subrange(v.range.offset as int, end),
            v.range.spec_index(),
            false,
        )
        &&& (s.len() >= 2 ==> v.range.length < s[s.len() - 2].range.length)
        &&& stack_ok(s.drop_last(), absorbed, start, v.range.offset as int)
    }
}

/// A pending right-spine accumulator covering `[v.range.offset, end of the
/// absorbed bytes)`, not necessarily chunk-full: the shape `end_chunk`
/// leaves at the top of the stack and `finalize` folds up.
pub open spec fn tail_entry_ok(v: NodeView, absorbed: Seq<u8>, root: bool) -> bool {
    &&& v.wf()
    &&& v.hashes_ok()
    &&& v.all_data()
    &&& matches_chunks(v, absorbed)
    &&& v.range.spec_end() == absorbed.len()
    &&& v.is_root == root
    &&& v.hash == tree_cv(
        absorbed.subrange(v.range.offset as int, absorbed.len() as int),
        v.range.spec_index(),
        v.is_root,
    )
}

/// The stack only reads absorbed bytes below `end`, so absorbing more
/// does not disturb it.
pub proof fn lemma_stack_extend(
    s: Seq<NodeView>,
    a1: Seq<u8>,
    a2: Seq<u8>,
    start: int,
    end: int,
)
    requires
        stack_ok(s, a1, start, end),
        a2.len() >= a1.len(),
        a2.subrange(0, a1.len() as int) == a1,
        0 <= start,
    ensures
        stack_ok(s, a2, start, end),
    decreases s.len(),
{
    if s.len() > 0 {
        let v = s.last();
        assert forall|b: int| v.range.offset <= b < v.range.spec_end() implies a2[b] == a1[b] by {
            assert(a1[b] == a2.subrange(0, a1.len() as int)[b]);
        }
        lemma_matches_frame(v, a1, a2);
        assert(a2.subrange(v.range.offset as int, end) =~= a1.subrange(
            v.range.offset as int,
            end,
        ));
        lemma_stack_extend(s.drop_last(), a1, a2, start, v.range.offset as int);
    }
}

/// Streaming tree builder: a fixed chunk buffer being filled, a stack of
/// completed right-spine subtrees, and running totals.
pub struct TreeHasher {
    stack: Vec<Node>,
    chunk: Vec<u8>,
    length: u64,
    chunks: u64,
    absorbed: Ghost<Seq<u8>>,
}

impl TreeHasher {
    /// The bytes absorbed so far.
    pub closed spec fn bytes(self) -> Seq<u8> {
        self.absorbed@
    }

    /// The invariant between operations: the chunk buffer holds the tail of
    /// the absorbed bytes past the last chunk boundary, `chunks` counts the
    /// closed chunks, and the stack covers exactly the closed chunks.
    pub closed spec fn wf(self) -> bool {
        let a = self.absorbed@;
        &&& self.length == a.len()
        &&& self.chunk@.len() <= CHUNK_SIZE
        &&& self.chunk@ == a.subrange(a.len() - self.chunk@.len(), a.len() as int)
        &&& self.chunks * CHUNK_SIZE == a.len() - self.chunk@.len()
        &&& stack_ok(views(self.stack@), a, 0, (a.len() - self.chunk@.len()) as int)
        &&& (self.chunk@.len() == 0 ==> a.len() == 0)
    }

    /// A fresh hasher that has absorbed nothing.
    pub fn new() -> (r: TreeHasher)
        ensures
            r.wf(),
            r.bytes() == Seq::<u8>::empty(),
    {
        let r = TreeHasher {
            stack: Vec::new(),
            chunk: Vec::new(),
            length: 0,
            chunks: 0,
            absorbed: Ghost(Seq::empty()),
        };
        proof {
            assert(r.chunk@ =~= r.absorbed@.subrange(0, 0));
            assert(views(r.stack@) =~= Seq::<NodeView>::empty());
        }
        r
    }

    /// Append bytes to the current chunk buffer.
    fn fill_chunk(&mut self, bytes: &[u8])
        requires
            old(self).wf() || (old(self).chunk@.len() == 0 && old(self).wf_after_end()),
            old(self).chunk@.len() + bytes@.len() <= CHUNK_SIZE,
            old(self).length + bytes@.len() <= u64::MAX,
        ensures
            final(self).bytes() == old(self).bytes() + bytes@,
            bytes@.len() > 0 ==> final(self).wf(),
            bytes@.len() == 0 ==> (*final(self) == *old(self)),
    {
        let ghost pre = *self;
        if bytes.len() == 0 {
            return;
        }
        self.chunk.extend_from_slice(bytes);
        self.length = self.length + bytes.len() as u64;
        self.absorbed = Ghost(pre.absorbed@ + bytes@);
        proof {
            let a = self.absorbed@;
            crate::hash::lemma_extend_u8(pre.chunk@, self.chunk@, bytes@);
            assert(self.chunk@ =~= a.subrange(a.len() - self.chunk@.len(), a.len() as int));
            assert(a.subrange(0, pre.absorbed@.len() as int) =~= pre.absorbed@);
            lemma_stack_extend(
                views(self.stack@),
                pre.absorbed@,
                a,
                0,
                (pre.absorbed@.len() - pre.chunk@.len()) as int,
            );
        }
    }

    /// The invariant right after a chunk was closed mid-stream: as `wf` but
    /// the chunk buffer is empty while bytes were already absorbed.
    pub closed spec fn wf_after_end(self) -> bool {
        let a = self.absorbed@;
        &&& self.length == a.len()
        &&& self.chunk@.len() == 0
        &&& self.chunks * CHUNK_SIZE == a.len()
        &&& stack_ok(views(self.stack@), a, 0, a.len() as int)
    }

    /// Close the current chunk: hash it with the chunk construction, then
    /// repeatedly merge it with equal-sized completed subtrees off the top
    /// of the stack, and push the result. With `finalize` the chunk may be
    /// the short trailing one, and the finalization flag is set exactly
    /// when the merged subtree stands alone.
    #[verifier::rlimit(100)]
    #[verifier::spinoff_prover]
    fn end_chunk(&mut self, finalize: bool)
        requires
            old(self).wf(),
            finalize || old(self).chunk@.len() == CHUNK_SIZE,
        ensures
            final(self).bytes() == old(self).bytes(),
            final(self).length == old(self).length,
            !finalize ==> final(self).wf_after_end(),
            finalize ==> ({
                let s = views(final(self).stack@);
                let a = final(self).bytes();
                &&& s.len() >= 1
                &&& stack_ok(s.drop_last(), a, 0, s.last().range.offset as int)
                &&& tail_entry_ok(s.last(), a, s.len() == 1)
                &&& (s.len() >= 2 ==> s.last().range.length <= s[s.len() - 2].range.length)
                &&& (s.last().range.length >= 1 || a.len() == 0)
            }),
    {
        let ghost a = self.absorbed@;
        let clen = self.chunk.len() as u64;
        let offset = self.length - clen;
        let index = self.chunks;
        let is_root = finalize && self.stack.len() == 0;
        proof {
            assert(offset as int % (CHUNK_SIZE as int) == 0 && offset as int / (CHUNK_SIZE as int)
                == index) by (nonlinear_arith)
                requires
                    offset == self.chunks * CHUNK_SIZE,
                    CHUNK_SIZE == 1024,
                    index == self.chunks,
            ;
        }
        let h = chunk_hash(index, self.chunk.as_slice(), is_root);
        let mut right = Node {
            hash: h,
            range: Range::new(offset, clen),
            is_root,
            children: Children::Data,
        };
        proof {
            assert(right@.wf());
            assert(a.subrange(right@.range.offset as int, right@.range.spec_end())
                =~= self.chunk@);
            assert(matches_chunks(right@, a));
            assert(right@.hash == tree_cv(
                a.subrange(offset as int, a.len() as int),
                index as int,
                is_root,
            ));
        }
        self.chunk.clear();
        proof {
            assert(self.chunks < u64::MAX) by (nonlinear_arith)
                requires
                    self.chunks * CHUNK_SIZE <= u64::MAX,
                    CHUNK_SIZE == 1024,
            ;
        }
        self.chunks = self.chunks + 1;
        while self.stack.len() > 0 && self.stack[self.stack.len() - 1].range.num_chunks()
            == right.range.num_chunks()
            invariant
                self.absorbed@ == a,
                self.length == a.len(),
                self.chunk@.len() == 0,
                !finalize ==> (self.chunks * CHUNK_SIZE == a.len() && right@.range.length as int % (
                CHUNK_SIZE as int) == 0 && !right@.is_root),
                stack_ok(views(self.stack@), a, 0, right@.range.offset as int),
                right@.wf(),
                right@.hashes_ok(),
                right@.all_data(),
                matches_chunks(right@, a),
                right@.range.spec_end() == a.len(),
                right@.hash == tree_cv(
                    a.subrange(right@.range.offset as int, a.len() as int),
                    right@.range.spec_index(),
                    right@.is_root,
                ),
                is_pow2(right@.range.spec_num_chunks()),
                right@.is_root ==> (self.stack.len() == 0 && finalize),
                (finalize && self.stack.len() == 0) ==> right@.is_root,
                self.stack.len() > 0 ==> right@.range.spec_num_chunks() <= views(
                    self.stack@,
                ).last().range.spec_num_chunks(),
                right@.range.length >= 1 || a.len() == 0,
            decreases self.stack@.len(),
        {
            let ghost s_pre = views(self.stack@);
            let left = self.stack.pop().unwrap();
            proof {
                assert(views(self.stack@) =~= s_pre.drop_last());
                assert(left@ == s_pre.last());
                assert(left@.range.spec_num_chunks() == left@.range.length as int / (
                CHUNK_SIZE as int)) by (nonlinear_arith)
                    requires
                        left@.range.length as int % (CHUNK_SIZE as int) == 0,
                        left@.range.length >= CHUNK_SIZE,
                        CHUNK_SIZE == 1024,
                        left@.range.spec_num_chunks() == if left@.range.length <= CHUNK_SIZE {
                            1int
                        } else {
                            (left@.range.length - 1) as int / (CHUNK_SIZE as int) + 1
                        },
                ;
                assert(right@.range.length <= left@.range.length) by (nonlinear_arith)
                    requires
                        right@.range.spec_num_chunks() == left@.range.spec_num_chunks(),
                        left@.range.length == left@.range.spec_num_chunks() * CHUNK_SIZE,
                        right@.range.length <= right@.range.spec_num_chunks() * CHUNK_SIZE,
                        CHUNK_SIZE == 1024,
                ;
            }
            let is_root2 = finalize && self.stack.len() == 0;
            let h2 = parent_hash(left.hash.as_slice(), right.hash.as_slice(), is_root2);
            let range2 = Range::new(left.range.offset(), left.range.length() + right.range.length());
            let ghost left_v = left@;
            let ghost right_v = right@;
            right = Node {
                hash: h2,
                range: range2,
                is_root: is_root2,
                children: Children::Interior(Box::new(left), Box::new(right)),
            };
            proof {
                lemma_combined_split(left_v.range, right_v.range);
                assert(right@.wf());
                lemma_div_add_aligned(left_v.range.offset as int, left_v.range.length as int);
                lemma_tree_cv_merge(
                    a.subrange(left_v.range.offset as int, right_v.range.offset as int),
                    a.subrange(right_v.range.offset as int, a.len() as int),
                    left_v.range.spec_index(),
                    is_root2,
                );
                assert(a.subrange(left_v.range.offset as int, right_v.range.offset as int)
                    + a.subrange(right_v.range.offset as int, a.len() as int) =~= a.subrange(
                    left_v.range.offset as int,
                    a.len() as int,
                ));
                lemma_split_num_chunks(right@.range, left_v.range, right_v.range);
                assert(is_pow2(right@.range.spec_num_chunks())) by {
                    let c = left_v.range.spec_num_chunks();
                    assert(right@.range.spec_num_chunks() == 2 * c);
                    assert((2 * c) % 2 == 0 && (2 * c) / 2 == c);
                }
                if self.stack.len() > 0 {
                    let s_now = views(self.stack@);
                    let top = s_now.last();
                    assert(stack_ok(s_now, a, 0, left_v.range.offset as int));
                    assert(top == s_pre[s_pre.len() - 2]);
                    assert(CHUNK_SIZE <= top.range.length);
                    assert(top.range.length as int % (CHUNK_SIZE as int) == 0);
                    assert(is_pow2(top.range.length as int / (CHUNK_SIZE as int)));
                    assert(left_v.range.length < top.range.length);
                    lemma_count_lt(left_v.range, top.range);
                    assert(is_pow2(top.range.spec_num_chunks())) by {
                        assert(top.range.spec_num_chunks() == top.range.length as int / (
                        CHUNK_SIZE as int)) by (nonlinear_arith)
                            requires
                                top.range.length as int % (CHUNK_SIZE as int) == 0,
                                top.range.length >= CHUNK_SIZE,
                                CHUNK_SIZE == 1024,
                                top.range.spec_num_chunks() == if top.range.length <= CHUNK_SIZE {
                                    1int
                                } else {
                                    (top.range.length - 1) as int / (CHUNK_SIZE as int) + 1
                                },
                        ;
                    }
                    lemma_pow2_double(
                        left_v.range.spec_num_chunks(),
                        top.range.spec_num_chunks(),
                    );
                }
            }
        }
        let ghost s_pre = views(self.stack@);
        let ghost right_v = right@;
        self.stack.push(right);
        proof {
            assert(views(self.stack@) =~= s_pre.push(right_v));
            assert(views(self.stack@).drop_last() =~= s_pre);
            if !finalize {
                assert(right_v.range.length as int / (CHUNK_SIZE as int)
                    == right_v.range.spec_num_chunks()) by (nonlinear_arith)
                    requires
                        right_v.range.length as int % (CHUNK_SIZE as int) == 0,
                        right_v.range.length >= CHUNK_SIZE,
                        CHUNK_SIZE == 1024,
                        right_v.range.spec_num_chunks() == if right_v.range.length <= CHUNK_SIZE {
                            1int
                        } else {
                            (right_v.range.length - 1) as int / (CHUNK_SIZE as int) + 1
                        },
                ;
                if s_pre.len() > 0 {
                    lemma_count_lt_bytes(right_v.range, s_pre.last().range);
                }
                assert(stack_ok(views(self.stack@), a, 0, a.len() as int));
            } else {
                if s_pre.len() > 0 {
                    lemma_count_le_bytes(right_v.range, s_pre.last().range);
                }
            }
        }
    }
}

impl TreeHasher {
    /// Absorb more bytes: fill the current chunk, closing it whenever it is
    /// full and more bytes follow.
    pub fn update(&mut self, bytes: &[u8])
        requires
            old(self).wf(),
            old(self).bytes().len() + bytes@.len() <= u64::MAX,
        ensures
            final(self).wf(),
            final(self).bytes() == old(self).bytes() + bytes@,
    {
        let mut i: usize = 0;
        while i < bytes.len()
            invariant
                self.wf(),
                i <= bytes@.len(),
                self.bytes() == old(self).bytes() + bytes@.subrange(0, i as int),
                self.bytes().len() + (bytes@.len() - i) <= u64::MAX,
            decreases bytes@.len() - i,
        {
            let ghost pre = *self;
            if self.chunk.len() == CHUNK_SIZE as usize {
                self.end_chunk(false);
            }
            let space = CHUNK_SIZE as usize - self.chunk.len();
            let remaining = bytes.len() - i;
            let take = if space < remaining {
                space
            } else {
                remaining
            };
            self.fill_chunk(&bytes[i..i + take]);
            proof {
                assert(self.bytes() =~= old(self).bytes() + bytes@.subrange(0, (i + take) as int));
            }
            i = i + take;
        }
        proof {
            assert(bytes@.subrange(0, bytes@.len() as int) =~= bytes@);
        }
    }

    /// Close the trailing chunk (present even for an empty stream) and fold
    /// the right spine up into the root, setting the finalization flag only
    /// on the last combination. The returned tree is fully verified,
    /// consistent with the absorbed bytes, and carries the stream's BLAKE3
    /// tree hash as its root and identifier hash.
    pub fn finalize(self, mime: Mime) -> (r: Tree)
        requires
            self.wf(),
        ensures
            r.wf(),
            r.id.length == self.bytes().len(),
            r.id.mime == spec_mime_code(mime),
            r.id.hash@ == spec_tree_hash(self.bytes()),
            r.root@.hash == spec_tree_hash(self.bytes()),
            r.root@.all_data(),
            r.root@.hashes_ok(),
            matches_chunks(r.root@, self.bytes()),
    {
        let ghost a = self.absorbed@;
        let mut this = self;
        this.end_chunk(true);
        let ghost s0 = views(this.stack@);
        let mut right = this.stack.pop().unwrap();
        proof {
            assert(views(this.stack@) =~= s0.drop_last());
            assert(right@ == s0.last());
        }
        while this.stack.len() > 0
            invariant
                this.absorbed@ == a,
                this.length == a.len(),
                stack_ok(views(this.stack@), a, 0, right@.range.offset as int),
                tail_entry_ok(right@, a, this.stack.len() == 0),
                this.stack.len() > 0 ==> right@.range.length <= views(
                    this.stack@,
                ).last().range.length,
                right@.range.length >= 1 || a.len() == 0,
            decreases this.stack@.len(),
        {
            let ghost s_pre = views(this.stack@);
            let left = this.stack.pop().unwrap();
            proof {
                assert(views(this.stack@) =~= s_pre.drop_last());
                assert(left@ == s_pre.last());
                assert(right@.range.length >= 1);
            }
            let is_root2 = this.stack.len() == 0;
            let h2 = parent_hash(left.hash.as_slice(), right.hash.as_slice(), is_root2);
            let range2 = Range::new(
                left.range.offset(),
                left.range.length() + right.range.length(),
            );
            let ghost left_v = left@;
            let ghost right_v = right@;
            right = Node {
                hash: h2,
                range: range2,
                is_root: is_root2,
                children: Children::Interior(Box::new(left), Box::new(right)),
            };
            proof {
                lemma_combined_split(left_v.range, right_v.range);
                assert(right@.wf());
                lemma_div_add_aligned(left_v.range.offset as int, left_v.range.length as int);
                lemma_tree_cv_merge(
                    a.subrange(left_v.range.offset as int, right_v.range.offset as int),
                    a.subrange(right_v.range.offset as int, a.len() as int),
                    left_v.range.spec_index(),
                    is_root2,
                );
                assert(a.subrange(left_v.range.offset as int, right_v.range.offset as int)
                    + a.subrange(right_v.range.offset as int, a.len() as int) =~= a.subrange(
                    left_v.range.offset as int,
                    a.len() as int,
                ));
                if this.stack.len() > 0 {
                    let s_now = views(this.stack@);
                    let top = s_now.last();
                    assert(stack_ok(s_now, a, 0, left_v.range.offset as int));
                    assert(top == s_pre[s_pre.len() - 2]);
                    assert(left_v.range.length < top.range.length);
                    lemma_count_lt(left_v.range, top.range);
                    lemma_count_pow2(left_v.range);
                    lemma_count_pow2(top.range);
                    lemma_pow2_double(
                        left_v.range.spec_num_chunks(),
                        top.range.spec_num_chunks(),
                    );
                    assert(right@.range.length <= top.range.length) by {
                        lemma_split_num_chunks(right@.range, left_v.range, right_v.range);
                        lemma_count_le_bytes(right@.range, top.range);
                    }
                }
            }
        }
        proof {
            assert(right@.is_root);
            assert(right@.range.offset == 0);
            assert(right@.range.length == a.len());
            assert(a.subrange(0, a.len() as int) =~= a);
        }
        let hash_copy = bytes_of(right.hash.as_slice(), 0, 32);
        proof {
            assert(right@.hash.subrange(0, 32) =~= right@.hash);
        }
        let id = StreamId::new(hash_copy, this.length, mime.code());
        Tree { id, root: right }
    }
}

/// Hash a whole byte sequence into its fully verified tree.
pub fn tree_hash(bytes: &[u8], mime: Mime) -> (r: Tree)
    ensures
        r.wf(),
        r.id.length == bytes@.len(),
        r.id.mime == spec_mime_code(mime),
        r.id.hash@ == spec_tree_hash(bytes@),
        r.root@.hash == spec_tree_hash(bytes@),
        r.root@.all_data(),
        r.root@.hashes_ok(),
        matches_chunks(r.root@, bytes@),
{
    let mut hasher = TreeHasher::new();
    let n = bytes.len();
    proof {
        assert(bytes@.len() == n <= usize::MAX);
    }
    hasher.update(bytes);
    proof {
        assert(Seq::<u8>::empty() + bytes@ =~= bytes@);
    }
    hasher.finalize(mime)
}

/// A full-chunk interval covers a power-of-two count of chunks exactly when
/// its chunk count is its length over the chunk size.
proof fn lemma_count_pow2(r: Range)
    requires
        r.length as int % (CHUNK_SIZE as int) == 0,
        r.length >= CHUNK_SIZE,
        is_pow2(r.length as int / (CHUNK_SIZE as int)),
    ensures
        is_pow2(r.spec_num_chunks()),
        r.spec_num_chunks() == r.length as int / (CHUNK_SIZE as int),
{
    assert(r.spec_num_chunks() == r.length as int / (CHUNK_SIZE as int)) by (nonlinear_arith)
        requires
            r.length as int % (CHUNK_SIZE as int) == 0,
            r.length >= CHUNK_SIZE,
            CHUNK_SIZE == 1024,
            r.spec_num_chunks() == if r.length <= CHUNK_SIZE {
                1int
            } else {
                (r.length - 1) as int / (CHUNK_SIZE as int) + 1
            },
    ;
}

/// Chunk counts add over a split pair.
proof fn lemma_split_num_chunks(whole: Range, left: Range, right: Range)
    requires
        whole.wf(),
        whole.length > CHUNK_SIZE,
        whole.spec_split() == Some((left, right)),
    ensures
        whole.spec_num_chunks() == left.spec_num_chunks() + right.spec_num_chunks(),
        left.spec_num_chunks() == left.length as int / (CHUNK_SIZE as int),
{
    crate::range::lemma_split_parts(whole);
}

/// A shorter full-chunk interval covers fewer chunks.
proof fn lemma_count_lt(a: Range, b: Range)
    requires
        a.length < b.length,
        a.length as int % (CHUNK_SIZE as int) == 0,
        b.length as int % (CHUNK_SIZE as int) == 0,
        a.length >= CHUNK_SIZE,
        b.length >= CHUNK_SIZE,
    ensures
        a.spec_num_chunks() < b.spec_num_chunks(),
{
    assert(a.spec_num_chunks() < b.spec_num_chunks()) by (nonlinear_arith)
        requires
            a.length < b.length,
            a.length as int % (CHUNK_SIZE as int) == 0,
            b.length as int % (CHUNK_SIZE as int) == 0,
            a.length >= CHUNK_SIZE,
            b.length >= CHUNK_SIZE,
            CHUNK_SIZE == 1024,
            a.spec_num_chunks() == if a.length <= CHUNK_SIZE {
                1int
            } else {
                (a.length - 1) as int / (CHUNK_SIZE as int) + 1
            },
            b.spec_num_chunks() == if b.length <= CHUNK_SIZE {
                1int
            } else {
                (b.length - 1) as int / (CHUNK_SIZE as int) + 1
            },
    ;
}

/// Fewer covered chunks means fewer bytes against a full-chunk interval.
proof fn lemma_count_lt_bytes(a: Range, b: Range)
    requires
        a.spec_num_chunks() < b.spec_num_chunks(),
        b.length as int % (CHUNK_SIZE as int) == 0,
        b.length >= CHUNK_SIZE,
    ensures
        a.length < b.length,
{
    lemma_count_le_bytes(a, b);
    if a.length == b.length {
    }
}

/// At most as many covered chunks means at most as many bytes, against a
/// full-chunk interval.
proof fn lemma_count_le_bytes(a: Range, b: Range)
    requires
        a.spec_num_chunks() <= b.spec_num_chunks(),
        b.length as int % (CHUNK_SIZE as int) == 0,
        b.length >= CHUNK_SIZE,
    ensures
        a.spec_num_chunks() < b.spec_num_chunks() ==> a.length < b.length,
        a.length <= b.length,
{
    assert((a.spec_num_chunks() < b.spec_num_chunks() ==> a.length < b.length) && a.length
        <= b.length) by (nonlinear_arith)
        requires
            a.spec_num_chunks() <= b.spec_num_chunks(),
            b.length as int % (CHUNK_SIZE as int) == 0,
            b.length >= CHUNK_SIZE,
            CHUNK_SIZE == 1024,
            a.spec_num_chunks() == if a.length <= CHUNK_SIZE {
                1int
            } else {
                (a.length - 1) as int / (CHUNK_SIZE as int) + 1
            },
            b.spec_num_chunks() == if b.length <= CHUNK_SIZE {
                1int
            } else {
                (b.length - 1) as int / (CHUNK_SIZE as int) + 1
            },
    ;
}

} // verus!
