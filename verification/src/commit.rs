//! The commitment encoder: a fixed-width 256-bit correlation identifier,
//! carried through evaluation unchanged and bound into the journal as exactly
//! 32 big-endian bytes on success. The encoding must match what the
//! downstream decoder expects byte for byte.

use vstd::prelude::*;

verus! {

/// The journal bytes cannot be decoded as a fixed-width identifier: a
/// protocol mismatch between encoder and decoder.
#[derive(Clone, Copy, PartialEq, Eq, Structural, Debug)]
pub struct CommitmentDecodeMismatch;

/// A 256-bit correlation identifier, held as four 64-bit words, least
/// significant first.
#[derive(Clone, Copy, PartialEq, Eq, Structural, Debug)]
pub struct CorrelationId {
    pub w0: u64,
    pub w1: u64,
    pub w2: u64,
    pub w3: u64,
}

/// Byte `j` (big-endian, `0 <= j < 8`) of a 64-bit word.
pub open spec fn be_byte64(w: u64, j: int) -> u8 {
    (((w >> ((56 - 8 * j) as u64)) & 0xff) as u8)
}

/// The eight big-endian bytes of a 64-bit word.
pub open spec fn word_be(w: u64) -> Seq<u8> {
    seq![
        be_byte64(w, 0),
        be_byte64(w, 1),
        be_byte64(w, 2),
        be_byte64(w, 3),
        be_byte64(w, 4),
        be_byte64(w, 5),
        be_byte64(w, 6),
        be_byte64(w, 7),
    ]
}

/// The numeric value of a big-endian byte string.
pub open spec fn be_val(b: Seq<u8>) -> nat
    decreases b.len(),
{
    if b.len() == 0 {
        0
    } else {
        (be_val(b.drop_last()) * 256 + b.last()) as nat
    }
}

/// The `n`-th power of 256.
pub open spec fn p256(n: nat) -> nat
    decreases n,
{
    if n == 0 {
        1
    } else {
        (256 * p256((n - 1) as nat)) as nat
    }
}

impl CorrelationId {
    /// The number the identifier stands for.
    pub open spec fn value(&self) -> nat {
        (self.w0 + self.w1 * 0x10000000000000000 + self.w2 * 0x100000000000000000000000000000000
            + self.w3 * 0x1000000000000000000000000000000000000000000000000) as nat
    }

    /// The 32 big-endian bytes of the identifier.
    pub open spec fn spec_encode(&self) -> Seq<u8> {
        word_be(self.w3) + word_be(self.w2) + word_be(self.w1) + word_be(self.w0)
    }

    /// An identifier from a machine word.
    pub fn from_u64(x: u64) -> (r: CorrelationId)
        ensures
            r.value() == x,
            r == (CorrelationId { w0: x, w1: 0, w2: 0, w3: 0 }),
    {
        CorrelationId { w0: x, w1: 0, w2: 0, w3: 0 }
    }

    /// Encodes the identifier as exactly 32 big-endian bytes: the sole
    /// journal content of a satisfied evaluation.
    pub fn to_be_bytes(&self) -> (r: Vec<u8>)
        ensures
            r@ == self.spec_encode(),
            r@.len() == 32,
            be_val(r@) == self.value(),
    {
        let mut out: Vec<u8> = Vec::new();
        push_word_be(&mut out, self.w3);
        push_word_be(&mut out, self.w2);
        push_word_be(&mut out, self.w1);
        push_word_be(&mut out, self.w0);
        proof {
            assert(out@ =~= self.spec_encode());
            lemma_encode_value(*self);
        }
        out
    }

    /// Decodes 32 big-endian bytes back into an identifier; any other length
    /// is a decode mismatch.
    pub fn from_be_bytes(b: &Vec<u8>) -> (r: Result<CorrelationId, CommitmentDecodeMismatch>)
        ensures
            match r {
                Ok(c) => b@.len() == 32 && c.spec_encode() == b@,
                Err(_) => b@.len() != 32,
            },
    {
        if b.len() != 32 {
            return Err(CommitmentDecodeMismatch);
        }
        let w3 = read_word_be(b, 0);
        let w2 = read_word_be(b, 8);
        let w1 = read_word_be(b, 16);
        let w0 = read_word_be(b, 24);
        let c = CorrelationId { w0, w1, w2, w3 };
        proof {
            assert(c.spec_encode() =~= b@);
        }
        Ok(c)
    }
}

/// Round trip: decoding what the encoder emitted gives the identifier back.
pub proof fn lemma_commitment_round_trip(c: CorrelationId, d: CorrelationId)
    requires
        d.spec_encode() == c.spec_encode(),
    ensures
        d == c,
{
    assert(word_be(c.w3) =~= d.spec_encode().subrange(0, 8));
    assert(word_be(c.w2) =~= d.spec_encode().subrange(8, 16));
    assert(word_be(c.w1) =~= d.spec_encode().subrange(16, 24));
    assert(word_be(c.w0) =~= d.spec_encode().subrange(24, 32));
    assert(word_be(d.w3) =~= d.spec_encode().subrange(0, 8));
    assert(word_be(d.w2) =~= d.spec_encode().subrange(8, 16));
    assert(word_be(d.w1) =~= d.spec_encode().subrange(16, 24));
    assert(word_be(d.w0) =~= d.spec_encode().subrange(24, 32));
    lemma_word_bytes_inj(c.w3, d.w3);
    lemma_word_bytes_inj(c.w2, d.w2);
    lemma_word_bytes_inj(c.w1, d.w1);
    lemma_word_bytes_inj(c.w0, d.w0);
}

/// Two words with the same big-endian bytes are the same word.
proof fn lemma_word_bytes_inj(a: u64, b: u64)
    requires
        word_be(a) == word_be(b),
    ensures
        a == b,
{
    assert(be_byte64(a, 0) == be_byte64(b, 0));
    assert(be_byte64(a, 1) == be_byte64(b, 1));
    assert(be_byte64(a, 2) == be_byte64(b, 2));
    assert(be_byte64(a, 3) == be_byte64(b, 3));
    assert(be_byte64(a, 4) == be_byte64(b, 4));
    assert(be_byte64(a, 5) == be_byte64(b, 5));
    assert(be_byte64(a, 6) == be_byte64(b, 6));
    assert(be_byte64(a, 7) == be_byte64(b, 7));
    assert(((((a >> 56) & 0xff) as u8) == (((b >> 56) & 0xff) as u8) && (((a >> 48) & 0xff) as u8)
        == (((b >> 48) & 0xff) as u8) && (((a >> 40) & 0xff) as u8) == (((b >> 40) & 0xff) as u8)
        && (((a >> 32) & 0xff) as u8) == (((b >> 32) & 0xff) as u8) && (((a >> 24) & 0xff) as u8)
        == (((b >> 24) & 0xff) as u8) && (((a >> 16) & 0xff) as u8) == (((b >> 16) & 0xff) as u8)
        && (((a >> 8) & 0xff) as u8) == (((b >> 8) & 0xff) as u8) && (((a >> 0) & 0xff) as u8) == (
    ((b >> 0) & 0xff) as u8)) ==> a == b) by (bit_vector);
}

/// Appends the eight big-endian bytes of `w`.
fn push_word_be(out: &mut Vec<u8>, w: u64)
    ensures
        final(out)@ == old(out)@ + word_be(w),
{
    out.push((((w >> 56) & 0xff) as u8));
    out.push((((w >> 48) & 0xff) as u8));
    out.push((((w >> 40) & 0xff) as u8));
    out.push((((w >> 32) & 0xff) as u8));
    out.push((((w >> 24) & 0xff) as u8));
    out.push((((w >> 16) & 0xff) as u8));
    out.push((((w >> 8) & 0xff) as u8));
    out.push(((w & 0xff) as u8));
    proof {
        assert((w & 0xff) == ((w >> 0) & 0xff)) by (bit_vector);
        assert(out@ =~= old(out)@ + word_be(w));
    }
}

/// Reads eight big-endian bytes at `off` as a 64-bit word.
fn read_word_be(b: &Vec<u8>, off: usize) -> (w: u64)
    requires
        off + 8 <= b.len(),
    ensures
        word_be(w) == b@.subrange(off as int, off + 8int),
{
    let x0 = b[off] as u64;
    let x1 = b[off + 1] as u64;
    let x2 = b[off + 2] as u64;
    let x3 = b[off + 3] as u64;
    let x4 = b[off + 4] as u64;
    let x5 = b[off + 5] as u64;
    let x6 = b[off + 6] as u64;
    let x7 = b[off + 7] as u64;
    let w = (x0 << 56) | (x1 << 48) | (x2 << 40) | (x3 << 32) | (x4 << 24) | (x5 << 16) | (x6 << 8)
        | x7;
    proof {
        assert((((w >> 56) & 0xff) as u8) == x0 as u8 && (((w >> 48) & 0xff) as u8) == x1 as u8 && (
        ((w >> 40) & 0xff) as u8) == x2 as u8 && (((w >> 32) & 0xff) as u8) == x3 as u8 && (((w
            >> 24) & 0xff) as u8) == x4 as u8 && (((w >> 16) & 0xff) as u8) == x5 as u8 && (((w
            >> 8) & 0xff) as u8) == x6 as u8 && (((w >> 0) & 0xff) as u8) == x7 as u8)
            by (bit_vector)
            requires
                w == (x0 << 56) | (x1 << 48) | (x2 << 40) | (x3 << 32) | (x4 << 24) | (x5 << 16) | (
                x6 << 8) | x7,
                x0 < 256 && x1 < 256 && x2 < 256 && x3 < 256 && x4 < 256 && x5 < 256 && x6 < 256
                    && x7 < 256,
        ;
        assert(word_be(w) =~= b@.subrange(off as int, off + 8int));
    }
    w
}

/// Reading a concatenation: the left part is shifted past the right part.
proof fn lemma_be_val_append(a: Seq<u8>, b: Seq<u8>)
    ensures
        be_val(a + b) == be_val(a) * p256(b.len()) + be_val(b),
    decreases b.len(),
{
    if b.len() == 0 {
        assert(a + b =~= a);
        assert(p256(b.len()) == 1);
        assert(be_val(b) == 0);
        assert(be_val(a) * 1int == be_val(a)) by (nonlinear_arith);
    } else {
        lemma_be_val_append(a, b.drop_last());
        assert((a + b).drop_last() =~= a + b.drop_last());
        assert((a + b).last() == b.last());
        let x = be_val(a) as int;
        let p = p256((b.len() - 1) as nat) as int;
        let y = be_val(b.drop_last()) as int;
        assert(p256(b.len()) == 256 * p);
        assert(be_val(a + b.drop_last()) == x * p + y);
        assert(be_val(a + b) == (x * p + y) * 256 + b.last());
        assert(be_val(b) == y * 256 + b.last());
        assert((x * p + y) * 256 == x * (256 * p) + y * 256) by (nonlinear_arith);
        assert(x * (256 * p) == x * p256(b.len())) by (nonlinear_arith)
            requires
                p256(b.len()) == 256 * p,
        ;
        assert(be_val(a + b) == be_val(a) * p256(b.len()) + be_val(b));
    }
}

/// The big-endian bytes of a word read back as that word.
proof fn lemma_word_be_val(w: u64)
    ensures
        be_val(word_be(w)) == w,
{
    let s = word_be(w);
    assert(w >> 48 == (w >> 56) * 256 + ((w >> 48) & 0xff)) by (bit_vector);
    assert(w >> 40 == (w >> 48) * 256 + ((w >> 40) & 0xff)) by (bit_vector);
    assert(w >> 32 == (w >> 40) * 256 + ((w >> 32) & 0xff)) by (bit_vector);
    assert(w >> 24 == (w >> 32) * 256 + ((w >> 24) & 0xff)) by (bit_vector);
    assert(w >> 16 == (w >> 24) * 256 + ((w >> 16) & 0xff)) by (bit_vector);
    assert(w >> 8 == (w >> 16) * 256 + ((w >> 8) & 0xff)) by (bit_vector);
    assert(w == (w >> 8) * 256 + (w & 0xff)) by (bit_vector);
    assert(w >> 56 == ((w >> 56) & 0xff)) by (bit_vector);
    assert((w & 0xff) == ((w >> 0) & 0xff)) by (bit_vector);
    assert(((w >> 56) & 0xff) < 256 && ((w >> 48) & 0xff) < 256 && ((w >> 40) & 0xff) < 256 && ((w
        >> 32) & 0xff) < 256 && ((w >> 24) & 0xff) < 256 && ((w >> 16) & 0xff) < 256 && ((w >> 8)
        & 0xff) < 256 && ((w >> 0) & 0xff) < 256) by (bit_vector);
    assert(be_val(Seq::<u8>::empty()) == 0);
    assert(s.subrange(0, 1).drop_last() =~= Seq::<u8>::empty());
    assert(s.subrange(0, 1).last() == be_byte64(w, 0));
    assert(s.subrange(0, 2).drop_last() =~= s.subrange(0, 1));
    assert(s.subrange(0, 3).drop_last() =~= s.subrange(0, 2));
    assert(s.subrange(0, 4).drop_last() =~= s.subrange(0, 3));
    assert(s.subrange(0, 5).drop_last() =~= s.subrange(0, 4));
    assert(s.subrange(0, 6).drop_last() =~= s.subrange(0, 5));
    assert(s.subrange(0, 7).drop_last() =~= s.subrange(0, 6));
    assert(s.subrange(0, 8).drop_last() =~= s.subrange(0, 7));
    assert(s.subrange(0, 8) =~= s);
    assert(be_val(s.subrange(0, 1)) == w >> 56);
    assert(be_val(s.subrange(0, 2)) == w >> 48);
    assert(be_val(s.subrange(0, 3)) == w >> 40);
    assert(be_val(s.subrange(0, 4)) == w >> 32);
    assert(be_val(s.subrange(0, 5)) == w >> 24);
    assert(be_val(s.subrange(0, 6)) == w >> 16);
    assert(be_val(s.subrange(0, 7)) == w >> 8);
    assert(be_val(s.subrange(0, 8)) == w);
}

/// The concrete powers of 256 that separate the four words.
proof fn lemma_p256_consts()
    ensures
        p256(8) == 0x10000000000000000,
        p256(16) == 0x100000000000000000000000000000000,
        p256(24) == 0x1000000000000000000000000000000000000000000000000,
{
    reveal_with_fuel(p256, 25);
}

/// The 32-byte encoding read back as a number is the identifier's value.
proof fn lemma_encode_value(c: CorrelationId)
    ensures
        be_val(c.spec_encode()) == c.value(),
{
    lemma_word_be_val(c.w0);
    lemma_word_be_val(c.w1);
    lemma_word_be_val(c.w2);
    lemma_word_be_val(c.w3);
    lemma_p256_consts();
    let s32 = word_be(c.w3);
    let s21 = word_be(c.w2) + word_be(c.w1);
    let s0 = word_be(c.w0);
    assert(c.spec_encode() =~= (s32 + s21) + s0);
    lemma_be_val_append(word_be(c.w2), word_be(c.w1));
    lemma_be_val_append(s32, s21);
    lemma_be_val_append(s32 + s21, s0);
    let p64 = 0x10000000000000000int;
    let p128 = 0x100000000000000000000000000000000int;
    let p192 = 0x1000000000000000000000000000000000000000000000000int;
    let w0 = c.w0 as int;
    let w1 = c.w1 as int;
    let w2 = c.w2 as int;
    let w3 = c.w3 as int;
    assert(s21.len() == 16 && s0.len() == 8 && (s32 + s21).len() == 24);
    assert(be_val(s21) == w2 * p64 + w1);
    assert(be_val(s32 + s21) == w3 * p128 + (w2 * p64 + w1)) by (nonlinear_arith)
        requires
            be_val(s32 + s21) == w3 * p128 + be_val(s21),
            be_val(s21) == w2 * p64 + w1,
    ;
    assert((w3 * p128 + (w2 * p64 + w1)) * p64 == w3 * (p128 * p64) + w2 * (p64 * p64) + w1 * p64)
        by (nonlinear_arith);
    assert(0x100000000000000000000000000000000int * 0x10000000000000000int
        == 0x1000000000000000000000000000000000000000000000000int);
    assert(0x10000000000000000int * 0x10000000000000000int
        == 0x100000000000000000000000000000000int);
}

} // verus!
