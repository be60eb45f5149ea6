//! Stable, self-describing stream identifier: version, 32-byte root hash,
//! 64-bit length and 16-bit media-type code, with a fixed 43-byte binary
//! layout.

use crate::hash::{bytes_eq, bytes_of};
use crate::mime::{spec_mime_of_code, Mime};
use crate::range::Range;
use crate::StoreError;
use vstd::bytes::*;
use vstd::prelude::*;

verus! {

/// Identifies a stream: the BLAKE3 root hash of its tree, its length in
/// bytes and its media-type code, behind a version byte (currently 0).
#[derive(Debug, Hash, Eq)]
pub struct StreamId {
    pub version: u8,
    pub hash: Vec<u8>,
    pub length: u64,
    pub mime: u16,
}

/// Two identifiers carry the same version, hash bytes, length and
/// media-type code.
pub open spec fn same_id(a: StreamId, b: StreamId) -> bool {
    &&& a.version == b.version
    &&& a.hash@ == b.hash@
    &&& a.length == b.length
    &&& a.mime == b.mime
}

impl Clone for StreamId {
    fn clone(&self) -> (r: StreamId)
        ensures
            same_id(r, *self),
    {
        let hash = bytes_of(self.hash.as_slice(), 0, self.hash.len());
        proof {
            assert(self.hash@.subrange(0, self.hash@.len() as int) =~= self.hash@);
        }
        StreamId { version: self.version, hash, length: self.length, mime: self.mime }
    }
}

impl PartialEq for StreamId {
    fn eq(&self, other: &StreamId) -> (r: bool) {
        self.version == other.version && bytes_eq(self.hash.as_slice(), other.hash.as_slice())
            && self.length == other.length && self.mime == other.mime
    }
}

impl vstd::std_specs::cmp::PartialEqSpecImpl for StreamId {
    open spec fn obeys_eq_spec() -> bool {
        true
    }

    open spec fn eq_spec(&self, other: &StreamId) -> bool {
        same_id(*self, *other)
    }
}

impl StreamId {
    /// A well-formed identifier: version 0, a 32-byte hash.
    pub open spec fn wf(self) -> bool {
        &&& self.version == 0
        &&& self.hash@.len() == 32
    }

    /// The fixed 43-byte binary layout: version, hash, little-endian length,
    /// little-endian media-type code.
    pub open spec fn spec_to_bytes(self) -> Seq<u8> {
        seq![self.version] + self.hash@ + spec_u64_to_le_bytes(self.length)
            + spec_u16_to_le_bytes(self.mime)
    }

    pub fn new(hash: Vec<u8>, length: u64, mime: u16) -> (r: StreamId)
        requires
            hash@.len() == 32,
        ensures
            r == (StreamId { version: 0u8, hash, length, mime }),
            r.wf(),
    {
        StreamId { version: 0, hash, length, mime }
    }

    pub fn version(&self) -> (r: u8)
        ensures
            r == self.version,
    {
        self.version
    }

    pub fn hash(&self) -> (r: &Vec<u8>)
        ensures
            r@ == self.hash@,
    {
        &self.hash
    }

    pub fn length(&self) -> (r: u64)
        ensures
            r == self.length,
    {
        self.length
    }

    /// The media type behind the 16-bit code; codes outside the table fall
    /// back to the default type.
    pub fn mime(&self) -> (r: Mime)
        ensures
            r == (match spec_mime_of_code(self.mime) {
                Some(m) => m,
                None => Mime::ApplicationOctetStream,
            }),
    {
        match Mime::from_u16(self.mime) {
            Some(m) => m,
            None => Mime::ApplicationOctetStream,
        }
    }

    /// The whole-stream interval `[0, length)`.
    pub fn range(&self) -> (r: Range)
        ensures
            r == (Range { offset: 0u64, length: self.length }),
    {
        Range::new(0, self.length)
    }

    /// Parse the 43-byte binary form. Fails exactly when the input is not 43
    /// bytes long or its version byte is not 0.
    pub fn from_bytes(bytes: &[u8]) -> (r: Result<StreamId, StoreError>)
        ensures
            r is Ok <==> (bytes@.len() == 43 && bytes@[0] == 0),
            r matches Ok(id) ==> {
                &&& id.wf()
                &&& id.hash@ == bytes@.subrange(1, 33)
                &&& id.length == spec_u64_from_le_bytes(bytes@.subrange(33, 41))
                &&& id.mime == spec_u16_from_le_bytes(bytes@.subrange(41, 43))
                &&& id.spec_to_bytes() == bytes@
            },
            r is Err ==> r == Err::<StreamId, StoreError>(StoreError::FormatError),
    {
        if bytes.len() != 43 {
            return Err(StoreError::FormatError);
        }
        if bytes[0] != 0 {
            return Err(StoreError::FormatError);
        }
        let hash = bytes_of(bytes, 1, 33);
        let length = u64_from_le_bytes(&bytes[33..41]);
        let mime = u16_from_le_bytes(&bytes[41..43]);
        let id = StreamId::new(hash, length, mime);
        proof {
            lemma_auto_spec_u64_to_from_le_bytes();
            lemma_auto_spec_u16_to_from_le_bytes();
            assert(id.spec_to_bytes() =~= bytes@);
        }
        Ok(id)
    }

    /// The 43-byte binary form.
    pub fn to_bytes(&self) -> (r: Vec<u8>)
        ensures
            r@ == self.spec_to_bytes(),
            self.wf() ==> r@.len() == 43,
    {
        let mut r: Vec<u8> = Vec::new();
        r.push(self.version);
        r.extend_from_slice(self.hash.as_slice());
        let mut length = u64_to_le_bytes(self.length);
        r.append(&mut length);
        let mut mime = u16_to_le_bytes(self.mime);
        r.append(&mut mime);
        proof {
            lemma_auto_spec_u64_to_from_le_bytes();
            lemma_auto_spec_u16_to_from_le_bytes();
            assert(r@ =~= self.spec_to_bytes());
        }
        r
    }
}

/// The URL-safe base64 symbol for a 6-bit value: `A`-`Z`, `a`-`z`, `0`-`9`,
/// `-`, `_`.
pub open spec fn b64_byte(v: int) -> u8 {
    if v < 26 {
        (65 + v) as u8
    } else if v < 52 {
        (97 + v - 26) as u8
    } else if v < 62 {
        (48 + v - 52) as u8
    } else if v == 62 {
        45u8
    } else {
        95u8
    }
}

/// The 6-bit value of a URL-safe base64 symbol, or -1 for any other byte.
pub open spec fn b64_val(b: u8) -> int {
    if 65 <= b <= 90 {
        b - 65
    } else if 97 <= b <= 122 {
        b - 97 + 26
    } else if 48 <= b <= 57 {
        b - 48 + 52
    } else if b == 45 {
        62
    } else if b == 95 {
        63
    } else {
        -1
    }
}

/// URL-safe base64 without padding (RFC 4648 section 5): three input bytes
/// become four symbols; one or two trailing bytes become two or three
/// symbols with zeroed trailing bits.
pub open spec fn spec_b64_encode(s: Seq<u8>) -> Seq<u8>
    decreases s.len(),
{
    if s.len() == 0 {
        Seq::empty()
    } else if s.len() == 1 {
        seq![b64_byte(s[0] as int / 4), b64_byte((s[0] as int % 4) * 16)]
    } else if s.len() == 2 {
        seq![
            b64_byte(s[0] as int / 4),
            b64_byte((s[0] as int % 4) * 16 + s[1] as int / 16),
            b64_byte((s[1] as int % 16) * 4),
        ]
    } else {
        seq![
            b64_byte(s[0] as int / 4),
            b64_byte((s[0] as int % 4) * 16 + s[1] as int / 16),
            b64_byte((s[1] as int % 16) * 4 + s[2] as int / 64),
            b64_byte(s[2] as int % 64),
        ] + spec_b64_encode(s.skip(3))
    }
}

/// Reading a symbol back gives the 6-bit value it was made from.
pub proof fn lemma_b64_symbol_roundtrip(v: int)
    requires
        0 <= v < 64,
    ensures
        b64_val(b64_byte(v)) == v,
{
}

/// The length of the padding-free encoding.
pub proof fn lemma_b64_encode_len(s: Seq<u8>)
    ensures
        spec_b64_encode(s).len() == if s.len() % 3 == 0 {
            s.len() / 3 * 4
        } else if s.len() % 3 == 1 {
            s.len() / 3 * 4 + 2
        } else {
            s.len() / 3 * 4 + 3
        },
    decreases s.len(),
{
    if s.len() >= 3 {
        lemma_b64_encode_len(s.skip(3));
    }
}

/// Ranges of a byte's quotients and remainders by the base64 split points.
proof fn lemma_byte_bounds(x: u8)
    ensures
        0 <= x as int / 4 < 64,
        0 <= x as int % 4 < 4,
        0 <= x as int / 16 < 16,
        0 <= x as int % 16 < 16,
        0 <= x as int / 64 < 4,
        0 <= x as int % 64 < 64,
{
    assert(0 <= x as int / 4 < 64 && 0 <= x as int % 4 < 4 && 0 <= x as int / 16 < 16 && 0 <= x
        as int % 16 < 16 && 0 <= x as int / 64 < 4 && 0 <= x as int % 64 < 64)
        by (nonlinear_arith)
        requires
            0 <= x < 256,
    ;
}

/// A quotient-remainder pair below the divisor determines its parts.
proof fn lemma_digit_split(x: int, y: int, x2: int, y2: int, m: int)
    requires
        0 < m,
        0 <= y < m,
        0 <= y2 < m,
        x * m + y == x2 * m + y2,
        0 <= x,
        0 <= x2,
    ensures
        x == x2,
        y == y2,
{
    assert(x == x2 && y == y2) by (nonlinear_arith)
        requires
            0 < m,
            0 <= y < m,
            0 <= y2 < m,
            x * m + y == x2 * m + y2,
            0 <= x,
            0 <= x2,
    ;
}

/// A byte is its quotient and remainder by a power of four.
proof fn lemma_byte_split(a: u8, b: u8, m: int)
    requires
        0 < m,
        a as int / m == b as int / m,
        a as int % m == b as int % m,
    ensures
        a == b,
{
    assert(a == b) by (nonlinear_arith)
        requires
            0 < m,
            a as int / m == b as int / m,
            a as int % m == b as int % m,
    ;
}

/// The encoding is injective on inputs of equal length.
pub proof fn lemma_b64_encode_injective(a: Seq<u8>, b: Seq<u8>)
    requires
        a.len() == b.len(),
        spec_b64_encode(a) == spec_b64_encode(b),
    ensures
        a == b,
    decreases a.len(),
{
    if a.len() == 0 {
        assert(a =~= b);
    } else if a.len() == 1 {
        lemma_byte_bounds(a[0]);
        lemma_byte_bounds(b[0]);
        lemma_b64_symbol_roundtrip(a[0] as int / 4);
        lemma_b64_symbol_roundtrip(b[0] as int / 4);
        lemma_b64_symbol_roundtrip((a[0] as int % 4) * 16);
        lemma_b64_symbol_roundtrip((b[0] as int % 4) * 16);
        assert(spec_b64_encode(a)[0] == spec_b64_encode(b)[0]);
        assert(spec_b64_encode(a)[1] == spec_b64_encode(b)[1]);
        lemma_digit_split(a[0] as int % 4, 0, b[0] as int % 4, 0, 16);
        lemma_byte_split(a[0], b[0], 4);
        assert(a =~= b);
    } else if a.len() == 2 {
        lemma_byte_bounds(a[0]);
        lemma_byte_bounds(b[0]);
        lemma_byte_bounds(a[1]);
        lemma_byte_bounds(b[1]);
        lemma_b64_symbol_roundtrip(a[0] as int / 4);
        lemma_b64_symbol_roundtrip(b[0] as int / 4);
        lemma_b64_symbol_roundtrip((a[0] as int % 4) * 16 + a[1] as int / 16);
        lemma_b64_symbol_roundtrip((b[0] as int % 4) * 16 + b[1] as int / 16);
        lemma_b64_symbol_roundtrip((a[1] as int % 16) * 4);
        lemma_b64_symbol_roundtrip((b[1] as int % 16) * 4);
        assert(spec_b64_encode(a)[0] == spec_b64_encode(b)[0]);
        assert(spec_b64_encode(a)[1] == spec_b64_encode(b)[1]);
        assert(spec_b64_encode(a)[2] == spec_b64_encode(b)[2]);
        lemma_digit_split(a[0] as int % 4, a[1] as int / 16, b[0] as int % 4, b[1] as int / 16, 16);
        lemma_digit_split(a[1] as int % 16, 0, b[1] as int % 16, 0, 4);
        lemma_byte_split(a[0], b[0], 4);
        lemma_byte_split(a[1], b[1], 16);
        assert(a =~= b);
    } else {
        lemma_byte_bounds(a[0]);
        lemma_byte_bounds(b[0]);
        lemma_byte_bounds(a[1]);
        lemma_byte_bounds(b[1]);
        lemma_byte_bounds(a[2]);
        lemma_byte_bounds(b[2]);
        let xa0 = a[0] as int / 4;
        let xb0 = b[0] as int / 4;
        let xa1 = (a[0] as int % 4) * 16 + a[1] as int / 16;
        let xb1 = (b[0] as int % 4) * 16 + b[1] as int / 16;
        let xa2 = (a[1] as int % 16) * 4 + a[2] as int / 64;
        let xb2 = (b[1] as int % 16) * 4 + b[2] as int / 64;
        let xa3 = a[2] as int % 64;
        let xb3 = b[2] as int % 64;
        lemma_b64_symbol_roundtrip(xa0);
        lemma_b64_symbol_roundtrip(xb0);
        lemma_b64_symbol_roundtrip(xa1);
        lemma_b64_symbol_roundtrip(xb1);
        lemma_b64_symbol_roundtrip(xa2);
        lemma_b64_symbol_roundtrip(xb2);
        lemma_b64_symbol_roundtrip(xa3);
        lemma_b64_symbol_roundtrip(xb3);
        assert(spec_b64_encode(a)[0] == b64_byte(xa0) && spec_b64_encode(a)[1] == b64_byte(xa1)
            && spec_b64_encode(a)[2] == b64_byte(xa2) && spec_b64_encode(a)[3] == b64_byte(xa3));
        assert(spec_b64_encode(b)[0] == b64_byte(xb0) && spec_b64_encode(b)[1] == b64_byte(xb1)
            && spec_b64_encode(b)[2] == b64_byte(xb2) && spec_b64_encode(b)[3] == b64_byte(xb3));
        assert(xa0 == xb0 && xa1 == xb1 && xa2 == xb2 && xa3 == xb3);
        lemma_digit_split(a[0] as int % 4, a[1] as int / 16, b[0] as int % 4, b[1] as int / 16, 16);
        lemma_digit_split(a[1] as int % 16, a[2] as int / 64, b[1] as int % 16, b[2] as int / 64, 4);
        lemma_byte_split(a[0], b[0], 4);
        lemma_byte_split(a[1], b[1], 16);
        lemma_byte_split(a[2], b[2], 64);
        lemma_b64_encode_len(a.skip(3));
        lemma_b64_encode_len(b.skip(3));
        assert(spec_b64_encode(a.skip(3)) =~= spec_b64_encode(b.skip(3))) by {
            assert forall|i: int| 0 <= i < spec_b64_encode(a.skip(3)).len() implies spec_b64_encode(
                a.skip(3),
            )[i] == spec_b64_encode(b.skip(3))[i] by {
                assert(spec_b64_encode(a)[4 + i] == spec_b64_encode(a.skip(3))[i]);
                assert(spec_b64_encode(b)[4 + i] == spec_b64_encode(b.skip(3))[i]);
                assert(spec_b64_encode(a)[4 + i] == spec_b64_encode(b)[4 + i]);
            }
        }
        lemma_b64_encode_injective(a.skip(3), b.skip(3));
        assert forall|i: int| 0 <= i < a.len() implies a[i] == b[i] by {
            if i >= 3 {
                assert(a[i] == a.skip(3)[i - 3]);
                assert(b[i] == b.skip(3)[i - 3]);
            }
        }
        assert(a =~= b);
    }
}

/// Relies on base64's URL-safe alphabet with the no-padding configuration:
/// RFC 4648 section 5 encoding without `=` padding.
#[verifier::external_body]
fn b64_encode_bytes(bytes: &[u8]) -> (r: Vec<u8>)
    ensures
        r@ == spec_b64_encode(bytes@),
{
    base64::Engine::encode(&base64::engine::general_purpose::URL_SAFE_NO_PAD, bytes).into_bytes()
}

/// Relies on base64's URL-safe no-padding engine, which rejects foreign
/// symbols, bad lengths and nonzero trailing bits: decoding 58 symbols
/// accepts exactly the canonical encodings of 43-byte strings and inverts
/// the encoding.
#[verifier::external_body]
fn b64_decode_43(bytes64: &[u8]) -> (r: Option<Vec<u8>>)
    requires
        bytes64@.len() == 58,
    ensures
        r matches Some(v) ==> (v@.len() == 43 && spec_b64_encode(v@) == bytes64@),
        r is None ==> forall|b: Seq<u8>| b.len() == 43 ==> spec_b64_encode(b) != bytes64@,
{
    let mut out = [0u8; 43];
    let engine = &base64::engine::general_purpose::URL_SAFE_NO_PAD;
    match base64::Engine::decode_slice_unchecked(engine, bytes64, &mut out) {
        Ok(_) => Some(out.to_vec()),
        Err(_) => None,
    }
}

impl StreamId {
    /// Parse the canonical 58-character URL-safe base64 text form. Succeeds
    /// exactly on the unpadded encodings of well-formed 43-byte identifier
    /// layouts; anything else — wrong length, foreign symbols, nonzero
    /// trailing bits, a nonzero version byte — fails with `FormatError`.
    pub fn from_base64(bytes64: &[u8]) -> (r: Result<StreamId, StoreError>)
        ensures
            r is Ok <==> (bytes64@.len() == 58 && exists|b: Seq<u8>|
                b.len() == 43 && b[0] == 0 && #[trigger] spec_b64_encode(b) == bytes64@),
            r matches Ok(id) ==> (id.wf() && spec_b64_encode(id.spec_to_bytes()) == bytes64@),
            r is Err ==> r == Err::<StreamId, StoreError>(StoreError::FormatError),
    {
        if bytes64.len() != 58 {
            return Err(StoreError::FormatError);
        }
        match b64_decode_43(bytes64) {
            Some(bytes) => {
                let r = StreamId::from_bytes(bytes.as_slice());
                proof {
                    if bytes@[0] == 0 {
                        assert(spec_b64_encode(bytes@) == bytes64@);
                    } else {
                        assert forall|b: Seq<u8>|
                            b.len() == 43 && b[0] == 0 implies #[trigger] spec_b64_encode(b)
                            != bytes64@ by {
                            if spec_b64_encode(b) == bytes64@ {
                                lemma_b64_encode_injective(b, bytes@);
                            }
                        }
                    }
                }
                r
            },
            None => Err(StoreError::FormatError),
        }
    }

    /// The canonical 58-character URL-safe base64 text form, without
    /// padding.
    pub fn to_base64(&self) -> (r: Vec<u8>)
        ensures
            r@ == spec_b64_encode(self.spec_to_bytes()),
            self.wf() ==> r@.len() == 58,
    {
        let bytes = self.to_bytes();
        proof {
            if self.wf() {
                lemma_b64_encode_len(self.spec_to_bytes());
            }
        }
        b64_encode_bytes(bytes.as_slice())
    }
}

/// Id parsing round-trip: the text form of a well-formed identifier parses,
/// and anything whose text form matches it carries the same fields.
pub proof fn lemma_text_round_trip(id: StreamId)
    requires
        id.wf(),
    ensures
        exists|b: Seq<u8>|
            b.len() == 43 && b[0] == 0 && #[trigger] spec_b64_encode(b) == spec_b64_encode(
                id.spec_to_bytes(),
            ),
        forall|id2: StreamId|
            id2.wf() && #[trigger] spec_b64_encode(id2.spec_to_bytes()) == spec_b64_encode(
                id.spec_to_bytes(),
            ) ==> same_id(id2, id),
{
    lemma_auto_spec_u64_to_from_le_bytes();
    lemma_auto_spec_u16_to_from_le_bytes();
    assert(id.spec_to_bytes().len() == 43);
    assert(id.spec_to_bytes()[0] == 0);
    assert(spec_b64_encode(id.spec_to_bytes()) == spec_b64_encode(id.spec_to_bytes()));
    assert forall|id2: StreamId|
        id2.wf() && #[trigger] spec_b64_encode(id2.spec_to_bytes()) == spec_b64_encode(
            id.spec_to_bytes(),
        ) implies same_id(id2, id) by {
        assert(id2.spec_to_bytes().len() == 43);
        lemma_b64_encode_injective(id2.spec_to_bytes(), id.spec_to_bytes());
        lemma_stream_id_bytes_injective(id2, id);
    }
}

/// The 43-byte layout determines the identifier: equal encodings come from
/// identifiers with equal fields.
pub proof fn lemma_stream_id_bytes_injective(a: StreamId, b: StreamId)
    requires
        a.wf(),
        b.wf(),
        a.spec_to_bytes() == b.spec_to_bytes(),
    ensures
        a.hash@ == b.hash@,
        a.length == b.length,
        a.mime == b.mime,
        a.version == b.version,
{
    lemma_auto_spec_u64_to_from_le_bytes();
    lemma_auto_spec_u16_to_from_le_bytes();
    assert(a.hash@ =~= a.spec_to_bytes().subrange(1, 33));
    assert(b.hash@ =~= b.spec_to_bytes().subrange(1, 33));
    assert(spec_u64_to_le_bytes(a.length) =~= a.spec_to_bytes().subrange(33, 41));
    assert(spec_u64_to_le_bytes(b.length) =~= b.spec_to_bytes().subrange(33, 41));
    assert(spec_u16_to_le_bytes(a.mime) =~= a.spec_to_bytes().subrange(41, 43));
    assert(spec_u16_to_le_bytes(b.mime) =~= b.spec_to_bytes().subrange(41, 43));
    assert(a.length == spec_u64_from_le_bytes(spec_u64_to_le_bytes(a.length)));
    assert(b.length == spec_u64_from_le_bytes(spec_u64_to_le_bytes(b.length)));
    assert(a.mime == spec_u16_from_le_bytes(spec_u16_to_le_bytes(a.mime)));
    assert(b.mime == spec_u16_from_le_bytes(spec_u16_to_le_bytes(b.mime)));
}

} // verus!
