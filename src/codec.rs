//! The snapshot's matrix encoding: every component as four little-endian
//! bytes, in order, and the bytes as standard padded base64.
use crate::error::DbError;
use base64::engine::general_purpose;
use base64::Engine;
use vstd::prelude::*;

verus! {

/// The standard padded base64 text of a byte sequence.
pub uninterp spec fn base64_of(b: Seq<u8>) -> Seq<char>;

#[verifier::external_type_specification]
#[verifier::external_body]
pub struct ExDecodeError(base64::DecodeError);

/// Relies on `base64::Engine::encode` with the `STANDARD` engine: distinct
/// byte sequences get distinct texts, and it panics only when the encoded
/// length overflows `usize`.
#[verifier::external_body]
fn encode_base64(bytes: &Vec<u8>) -> (r: String)
    requires
        bytes@.len() <= usize::MAX / 2,
    ensures
        r@ == base64_of(bytes@),
        forall|b: Seq<u8>| #[trigger] base64_of(b) == r@ ==> b == bytes@,
{
    general_purpose::STANDARD.encode(bytes)
}

/// Relies on `base64::Engine::decode` with the `STANDARD` engine, which
/// requires canonical padding and rejects non-zero trailing bits: it accepts
/// exactly the texts that `encode` produces and returns the bytes they encode.
#[verifier::external_body]
fn decode_base64(s: &str) -> (r: Result<Vec<u8>, base64::DecodeError>)
    ensures
        r is Ok ==> base64_of(r->Ok_0@) == s@,
        forall|b: Seq<u8>| #[trigger] base64_of(b) == s@ ==> r is Ok && r->Ok_0@ == b,
{
    general_purpose::STANDARD.decode(s)
}

/// Byte `j` (0 = least significant) of a component.
pub open spec fn byte_of(x: u32, j: int) -> u8 {
    if j == 0 {
        (x & 0xff) as u8
    } else if j == 1 {
        ((x >> 8u32) & 0xff) as u8
    } else if j == 2 {
        ((x >> 16u32) & 0xff) as u8
    } else {
        ((x >> 24u32) & 0xff) as u8
    }
}

/// The component whose little-endian bytes are `b0, b1, b2, b3`.
pub open spec fn word_of(b0: u8, b1: u8, b2: u8, b3: u8) -> u32 {
    (b0 as u32) | ((b1 as u32) << 8u32) | ((b2 as u32) << 16u32) | ((b3 as u32) << 24u32)
}

/// Every component as four little-endian bytes, in order.
pub open spec fn le_bytes(m: Seq<u32>) -> Seq<u8> {
    Seq::new(4 * m.len(), |p: int| byte_of(m[p / 4], p % 4))
}

/// Every complete group of four bytes read as a little-endian component;
/// bytes after the last complete group are ignored.
pub open spec fn le_words(b: Seq<u8>) -> Seq<u32> {
    Seq::new(b.len() / 4, |i: int| word_of(b[4 * i], b[4 * i + 1], b[4 * i + 2], b[4 * i + 3]))
}

proof fn lemma_word_bytes(x: u32)
    ensures
        word_of(byte_of(x, 0), byte_of(x, 1), byte_of(x, 2), byte_of(x, 3)) == x,
{
    assert(((x & 0xff) as u8 as u32) | ((((x >> 8u32) & 0xff) as u8 as u32) << 8u32) | ((((x
        >> 16u32) & 0xff) as u8 as u32) << 16u32) | ((((x >> 24u32) & 0xff) as u8 as u32)
        << 24u32) == x) by (bit_vector);
}

/// Reading back the bytes of a matrix gives the matrix.
pub proof fn lemma_le_round_trip(m: Seq<u32>)
    ensures
        le_words(le_bytes(m)) == m,
{
    let b = le_bytes(m);
    assert forall|i: int| 0 <= i < m.len() implies #[trigger] le_words(b)[i] == m[i] by {
        assert((4 * i) / 4 == i && (4 * i) % 4 == 0) by (nonlinear_arith)
            requires 0 <= i;
        assert((4 * i + 1) / 4 == i && (4 * i + 1) % 4 == 1) by (nonlinear_arith)
            requires 0 <= i;
        assert((4 * i + 2) / 4 == i && (4 * i + 2) % 4 == 2) by (nonlinear_arith)
            requires 0 <= i;
        assert((4 * i + 3) / 4 == i && (4 * i + 3) % 4 == 3) by (nonlinear_arith)
            requires 0 <= i;
        assert(4 * i + 3 < 4 * m.len()) by (nonlinear_arith)
            requires 0 <= i < m.len();
        lemma_word_bytes(m[i]);
    }
    assert((4 * m.len()) / 4 == m.len()) by (nonlinear_arith);
    assert(le_words(b) =~= m);
}

/// Lays the components out as little-endian bytes.
pub fn matrix_to_bytes(m: &Vec<u32>) -> (r: Vec<u8>)
    requires
        m@.len() <= usize::MAX / 4,
    ensures
        r@ == le_bytes(m@),
{
    let mut r: Vec<u8> = Vec::new();
    let mut i: usize = 0;
    while i < m.len()
        invariant
            0 <= i <= m.len(),
            m@.len() <= usize::MAX / 4,
            r@.len() == 4 * i,
            forall|p: int| 0 <= p < 4 * i ==> #[trigger] r@[p] == byte_of(m@[p / 4], p % 4),
        decreases m.len() - i,
    {
        let x = m[i];
        let ghost before = r@;
        r.push((x & 0xff) as u8);
        r.push(((x >> 8u32) & 0xff) as u8);
        r.push(((x >> 16u32) & 0xff) as u8);
        r.push(((x >> 24u32) & 0xff) as u8);
        assert forall|p: int| 0 <= p < 4 * (i + 1) implies #[trigger] r@[p] == byte_of(m@[p / 4], p % 4) by {
            if p >= 4 * i {
                assert(p / 4 == i && p % 4 == p - 4 * i) by (nonlinear_arith)
                    requires 4 * i <= p < 4 * i + 4;
            } else {
                assert(r@[p] == before[p]);
            }
        }
        i = i + 1;
    }
    assert(r@ =~= le_bytes(m@));
    r
}

/// Reads every complete group of four bytes as a little-endian component.
pub fn bytes_to_matrix(b: &Vec<u8>) -> (r: Vec<u32>)
    ensures
        r@ == le_words(b@),
{
    let n: usize = b.len() / 4;
    let mut r: Vec<u32> = Vec::new();
    let mut i: usize = 0;
    while i < n
        invariant
            0 <= i <= n,
            n == b@.len() / 4,
            r@.len() == i,
            forall|j: int| 0 <= j < i ==> #[trigger] r@[j] == le_words(b@)[j],
        decreases n - i,
    {
        assert(4 * i + 3 < b@.len()) by (nonlinear_arith)
            requires i < n, n == b@.len() / 4;
        assert(b@.len() == b.len());
        let base: usize = 4 * i;
        let w = (b[base] as u32) | ((b[base + 1] as u32) << 8u32) | ((b[base + 2] as u32)
            << 16u32) | ((b[base + 3] as u32) << 24u32);
        r.push(w);
        i = i + 1;
    }
    assert(r@ =~= le_words(b@));
    r
}

/// `text` is the saved form of `m`: the base64 text of its bytes, and the
/// only bytes with that text read back as `m`.
pub open spec fn encodes(text: Seq<char>, m: Seq<u32>) -> bool {
    &&& text == base64_of(le_bytes(m))
    &&& forall|b: Seq<u8>| #[trigger] base64_of(b) == text ==> le_words(b) == m
}

/// Encodes a matrix as the base64 text of its little-endian bytes.
pub fn serialize(m: &Vec<u32>) -> (r: String)
    requires
        m@.len() <= usize::MAX / 8,
    ensures
        encodes(r@, m@),
{
    let bytes = matrix_to_bytes(m);
    let r = encode_base64(&bytes);
    proof {
        lemma_le_round_trip(m@);
    }
    r
}

/// Decodes the base64 text of a matrix; trailing bytes that do not make up a
/// whole component are ignored. Text that is not canonical standard base64
/// is refused with `Io`.
pub fn deserialize(s: &str) -> (r: Result<Vec<u32>, DbError>)
    ensures
        r is Ok <==> exists|b: Seq<u8>| #[trigger] base64_of(b) == s@,
        r matches Ok(m) ==> exists|b: Seq<u8>| #[trigger] base64_of(b) == s@ && m@ == le_words(b),
        forall|b: Seq<u8>| #[trigger] base64_of(b) == s@ ==> (r matches Ok(m) && m@ == le_words(b)),
        r matches Err(e) ==> e == DbError::Io,
{
    match decode_base64(s) {
        Ok(bytes) => Ok(bytes_to_matrix(&bytes)),
        Err(_) => Err(DbError::Io),
    }
}

} // verus!
