//! The attribute-set digest: the document bytes are ABI-encoded as a Solidity
//! string, hashed with keccak-256, and printed as prefixed lowercase hex. The
//! encoding and the hex form are verified here; the digest itself comes from
//! an outside crate and is named, not restated.

use vstd::prelude::*;
use vstd::string::StrSliceExecFns;
use vstd::string::StringExecFns;
use vstd::string::StringSliceAdditionalSpecFns;
use alloy_sol_types::SolValue;
use crate::commit::p256;

verus! {

/// A 32-byte big-endian word holding the small number `n`: the form ABI heads
/// (offsets and lengths) take.
pub open spec fn abi_word(n: nat) -> Seq<u8> {
    Seq::new(32, |j: int| ((n / p256((31 - j) as nat)) % 256) as u8)
}

/// Zero padding up to the next 32-byte boundary past `n` bytes.
pub open spec fn abi_pad(n: nat) -> Seq<u8> {
    Seq::new(((32 - n % 32) % 32) as nat, |j: int| 0u8)
}

/// The ABI encoding of a byte string as a standalone Solidity `string`: an
/// offset word of 32, a length word, the bytes, and zero padding to a word
/// boundary.
pub open spec fn abi_str_enc(s: Seq<u8>) -> Seq<u8> {
    abi_word(32) + abi_word(s.len()) + s + abi_pad(s.len())
}

/// What keccak-256 returns on the given bytes; the digest depends on the
/// bytes alone.
pub uninterp spec fn keccak256_of(b: Seq<u8>) -> Seq<u8>;

/// Relies on `alloy_sol_types::SolValue::abi_encode` for `str`: it emits an
/// offset word of 32, a big-endian length word, the UTF-8 bytes, and zero
/// padding to the next word boundary.
#[verifier::external_body]
fn abi_encode_str(s: &str) -> (r: Vec<u8>)
    ensures
        r@ == abi_str_enc(s.spec_bytes()),
{
    s.abi_encode()
}

/// Relies on `alloy_primitives::keccak256`: a 32-byte digest that depends on
/// the input bytes alone.
#[verifier::external_body]
fn keccak256_bytes(b: &Vec<u8>) -> (r: Vec<u8>)
    ensures
        r@ == keccak256_of(b@),
        r@.len() == 32,
{
    alloy_primitives::keccak256(b.as_slice()).to_vec()
}

/// The sixteen hex digit characters.
pub open spec fn hex_digit(n: u8) -> char {
    seq!['0', '1', '2', '3', '4', '5', '6', '7', '8', '9', 'a', 'b', 'c', 'd', 'e', 'f'][n as int]
}

/// The lowercase hex characters of a byte string, two per byte.
pub open spec fn hex_chars(b: Seq<u8>) -> Seq<char>
    decreases b.len(),
{
    if b.len() == 0 {
        Seq::empty()
    } else {
        hex_chars(b.drop_last()) + seq![
            hex_digit(b.last() >> 4),
            hex_digit(b.last() & 0xf),
        ]
    }
}

/// A byte string printed as `0x`-prefixed lowercase hex.
pub open spec fn hex_str(b: Seq<u8>) -> Seq<char> {
    seq!['0', 'x'] + hex_chars(b)
}

/// The hex form spends two characters on each byte, after the prefix.
pub proof fn lemma_hex_str_len(b: Seq<u8>)
    ensures
        hex_str(b).len() == 2 + 2 * b.len(),
    decreases b.len(),
{
    if b.len() > 0 {
        lemma_hex_str_len(b.drop_last());
    }
}

/// The one-character string of a hex digit.
fn nibble_str(n: u8) -> (r: &'static str)
    requires
        n < 16,
    ensures
        r@ == seq![hex_digit(n)],
{
    proof {
        reveal_strlit("0");
        reveal_strlit("1");
        reveal_strlit("2");
        reveal_strlit("3");
        reveal_strlit("4");
        reveal_strlit("5");
        reveal_strlit("6");
        reveal_strlit("7");
        reveal_strlit("8");
        reveal_strlit("9");
        reveal_strlit("a");
        reveal_strlit("b");
        reveal_strlit("c");
        reveal_strlit("d");
        reveal_strlit("e");
        reveal_strlit("f");
    }
    match n {
        0 => "0",
        1 => "1",
        2 => "2",
        3 => "3",
        4 => "4",
        5 => "5",
        6 => "6",
        7 => "7",
        8 => "8",
        9 => "9",
        10 => "a",
        11 => "b",
        12 => "c",
        13 => "d",
        14 => "e",
        _ => "f",
    }
}

/// Prints bytes as `0x`-prefixed lowercase hex.
fn bytes_to_hex(b: &Vec<u8>) -> (r: String)
    ensures
        r@ == hex_str(b@),
{
    let mut s = String::new();
    s.append("0x");
    proof {
        reveal_strlit("0x");
        assert(("0x")@ =~= seq!['0', 'x']);
        assert(hex_chars(b@.subrange(0, 0)) =~= Seq::<char>::empty());
        assert(s@ =~= seq!['0', 'x'] + hex_chars(b@.subrange(0, 0)));
    }
    let mut i: usize = 0;
    while i < b.len()
        invariant
            i <= b.len(),
            s@ == seq!['0', 'x'] + hex_chars(b@.subrange(0, i as int)),
        decreases b.len() - i,
    {
        let byte = b[i];
        let hi = byte >> 4;
        let lo = byte & 0xf;
        proof {
            assert(byte >> 4 < 16 && byte & 0xf < 16) by (bit_vector);
        }
        s.append(nibble_str(hi));
        s.append(nibble_str(lo));
        proof {
            let sub1 = b@.subrange(0, i + 1int);
            assert(sub1.drop_last() =~= b@.subrange(0, i as int));
            assert(sub1.last() == b@[i as int]);
            assert(s@ =~= seq!['0', 'x'] + hex_chars(sub1));
        }
        i = i + 1;
    }
    proof {
        assert(b@.subrange(0, b@.len() as int) =~= b@);
    }
    s
}

/// The digest of an attribute document: keccak-256 over its ABI string
/// encoding, as prefixed lowercase hex.
pub fn calculate_attr_hash(dp_attr_str: &str) -> (r: String)
    ensures
        r@ == hex_str(keccak256_of(abi_str_enc(dp_attr_str.spec_bytes()))),
        r@.len() == 66,
{
    let encoded = abi_encode_str(dp_attr_str);
    let digest = keccak256_bytes(&encoded);
    proof {
        lemma_hex_str_len(digest@);
    }
    bytes_to_hex(&digest)
}

} // verus!
