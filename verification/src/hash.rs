//! Trusted bindings to the BLAKE3 chunk and parent constructions, and small
//! verified helpers on byte strings.

use vstd::prelude::*;

verus! {

/// The BLAKE3 chaining value of a single chunk: 32 bytes, a function of the
/// chunk index, the chunk bytes and the finalization flag alone.
pub uninterp spec fn chunk_cv(index: int, data: Seq<u8>, is_root: bool) -> Seq<u8>;

/// The BLAKE3 parent chaining value: 32 bytes, a function of the two child
/// hashes and the finalization flag alone.
pub uninterp spec fn parent_cv(left: Seq<u8>, right: Seq<u8>, is_root: bool) -> Seq<u8>;

/// The flat BLAKE3 digest of a byte sequence: 32 bytes, a function of the
/// bytes alone.
pub uninterp spec fn blake3_of(data: Seq<u8>) -> Seq<u8>;

/// Relies on `blake3::guts::ChunkState` (`new`, `update`, `finalize`): the
/// chaining value of one chunk of at most 1024 bytes, parameterized by the
/// chunk index and the finalization flag; the result is 32 bytes.
#[verifier::external_body]
pub(crate) fn chunk_hash(index: u64, data: &[u8], is_root: bool) -> (r: Vec<u8>)
    requires
        data@.len() <= 1024,
    ensures
        r@ == chunk_cv(index as int, data@, is_root),
        r@.len() == 32,
{
    let mut state = blake3::guts::ChunkState::new(index);
    state.update(data);
    state.finalize(is_root).as_bytes().to_vec()
}

/// Relies on `blake3::guts::parent_cv`: the chaining value of an interior
/// node over its two children's hashes plus the finalization flag; the
/// result is 32 bytes.
#[verifier::external_body]
pub(crate) fn parent_hash(left: &[u8], right: &[u8], is_root: bool) -> (r: Vec<u8>)
    requires
        left@.len() == 32,
        right@.len() == 32,
    ensures
        r@ == parent_cv(left@, right@, is_root),
        r@.len() == 32,
{
    let l: [u8; 32] = left.try_into().unwrap();
    let r: [u8; 32] = right.try_into().unwrap();
    blake3::guts::parent_cv(&blake3::Hash::from(l), &blake3::Hash::from(r), is_root)
        .as_bytes()
        .to_vec()
}

/// Relies on `blake3::hash`: the flat BLAKE3 digest of the input bytes; the
/// result is 32 bytes.
#[verifier::external_body]
pub(crate) fn blake3_hash(data: &[u8]) -> (r: Vec<u8>)
    ensures
        r@ == blake3_of(data@),
        r@.len() == 32,
{
    blake3::hash(data).as_bytes().to_vec()
}

/// The lower-case hexadecimal digit for a value below 16.
pub open spec fn hex_digit(n: int) -> char {
    if n == 0 {
        '0'
    } else if n == 1 {
        '1'
    } else if n == 2 {
        '2'
    } else if n == 3 {
        '3'
    } else if n == 4 {
        '4'
    } else if n == 5 {
        '5'
    } else if n == 6 {
        '6'
    } else if n == 7 {
        '7'
    } else if n == 8 {
        '8'
    } else if n == 9 {
        '9'
    } else if n == 10 {
        'a'
    } else if n == 11 {
        'b'
    } else if n == 12 {
        'c'
    } else if n == 13 {
        'd'
    } else if n == 14 {
        'e'
    } else {
        'f'
    }
}

/// Lower-case hexadecimal text of a byte string: two digits per byte, high
/// nibble first.
pub open spec fn spec_hex(b: Seq<u8>) -> Seq<char> {
    Seq::new(
        b.len() * 2,
        |i: int|
            if i % 2 == 0 {
                hex_digit(b[i / 2] as int / 16)
            } else {
                hex_digit(b[i / 2] as int % 16)
            },
    )
}

/// Relies on `hex::encode`: lower-case hexadecimal, two digits per byte,
/// high nibble first.
#[verifier::external_body]
pub(crate) fn hex_encode(data: &[u8]) -> (r: String)
    ensures
        r@ == spec_hex(data@),
{
    hex::encode(data)
}

/// A clone of a byte is that byte.
pub(crate) proof fn lemma_cloned_u8(a: u8, b: u8)
    requires
        cloned::<u8>(a, b),
    ensures
        a == b,
{
}

/// What `Vec::extend_from_slice` ensures for bytes, as plain sequence
/// concatenation.
pub(crate) proof fn lemma_extend_u8(pre: Seq<u8>, post: Seq<u8>, other: Seq<u8>)
    requires
        post.len() == pre.len() + other.len(),
        forall|i: int|
            0 <= i < post.len() ==> if i < pre.len() {
                post[i] == pre[i]
            } else {
                cloned::<u8>(other[i - pre.len()], #[trigger] post[i])
            },
    ensures
        post == pre + other,
{
    assert forall|i: int| 0 <= i < post.len() implies post[i] == (pre + other)[i] by {
        if i >= pre.len() {
            lemma_cloned_u8(other[i - pre.len()], post[i]);
        }
    }
    assert(post =~= pre + other);
}

/// Byte-string equality.
pub(crate) fn bytes_eq(a: &[u8], b: &[u8]) -> (r: bool)
    ensures
        r == (a@ == b@),
{
    if a.len() != b.len() {
        return false;
    }
    let mut i: usize = 0;
    while i < a.len()
        invariant
            i <= a@.len(),
            a@.len() == b@.len(),
            forall|j: int| 0 <= j < i ==> a@[j] == b@[j],
        decreases a@.len() - i,
    {
        if a[i] != b[i] {
            return false;
        }
        i = i + 1;
    }
    proof {
        assert(a@ =~= b@);
    }
    true
}

/// Overwrite `dst[off .. off + len]` with `src[from .. from + len]`.
pub(crate) fn copy_into(dst: &mut Vec<u8>, off: usize, src: &[u8], from: usize, len: usize)
    requires
        off + len <= old(dst)@.len(),
        from + len <= src@.len(),
    ensures
        final(dst)@.len() == old(dst)@.len(),
        forall|j: int|
            0 <= j < final(dst)@.len() ==> #[trigger] final(dst)@[j] == if off <= j < off + len {
                src@[from + (j - off)]
            } else {
                old(dst)@[j]
            },
{
    let src_len = src.len();
    let dst_len = dst.len();
    let mut k: usize = 0;
    while k < len
        invariant
            k <= len,
            off + len <= dst@.len(),
            from + len <= src@.len(),
            src@.len() == src_len,
            dst@.len() == dst_len,
            dst@.len() == old(dst)@.len(),
            forall|j: int|
                0 <= j < dst@.len() ==> #[trigger] dst@[j] == if off <= j < off + k {
                    src@[from + (j - off)]
                } else {
                    old(dst)@[j]
                },
        decreases len - k,
    {
        let b = src[from + k];
        dst[off + k] = b;
        k = k + 1;
    }
}

/// Copy a subrange of a byte slice into a fresh vector.
pub(crate) fn bytes_of(data: &[u8], from: usize, to: usize) -> (r: Vec<u8>)
    requires
        from <= to <= data@.len(),
    ensures
        r@ == data@.subrange(from as int, to as int),
{
    let mut r: Vec<u8> = Vec::new();
    let mut i: usize = from;
    while i < to
        invariant
            from <= i <= to <= data@.len(),
            r@ == data@.subrange(from as int, i as int),
        decreases to - i,
    {
        r.push(data[i]);
        i = i + 1;
        proof {
            assert(r@ =~= data@.subrange(from as int, i as int));
        }
    }
    r
}

} // verus!
