//! Byte-level scanning helpers shared by the textual forms the library reads:
//! whitespace runs, predicate-token runs, and byte-string comparison.

use vstd::prelude::*;

verus! {

/// ASCII whitespace accepted between the tokens of every textual form.
pub open spec fn is_ws(b: u8) -> bool {
    b == 0x20 || b == 0x09 || b == 0x0a || b == 0x0d
}

/// ASCII decimal digit.
pub open spec fn is_digit(b: u8) -> bool {
    0x30 <= b <= 0x39
}

/// Bytes that may stand in an attribute predicate token: letters, digits,
/// `_`, `:`, `.` and `-`.
pub open spec fn is_token_byte(b: u8) -> bool {
    (0x41 <= b <= 0x5a) || (0x61 <= b <= 0x7a) || is_digit(b) || b == 0x5f || b == 0x3a
        || b == 0x2e || b == 0x2d
}

/// Length of the whitespace run that starts at `pos`.
pub open spec fn ws_count(v: Seq<u8>, pos: int) -> nat
    decreases v.len() - pos,
{
    if 0 <= pos < v.len() && is_ws(v[pos]) {
        1 + ws_count(v, pos + 1)
    } else {
        0
    }
}

/// First position at or after `pos` that does not hold whitespace.
pub open spec fn skip_ws(v: Seq<u8>, pos: int) -> int {
    pos + ws_count(v, pos)
}

/// Length of the predicate-token run that starts at `pos`.
pub open spec fn tok_count(v: Seq<u8>, pos: int) -> nat
    decreases v.len() - pos,
{
    if 0 <= pos < v.len() && is_token_byte(v[pos]) {
        1 + tok_count(v, pos + 1)
    } else {
        0
    }
}

/// First position at or after `pos` that does not hold a token byte.
pub open spec fn token_end(v: Seq<u8>, pos: int) -> int {
    pos + tok_count(v, pos)
}

/// The deep view of a byte vector is its view.
pub proof fn lemma_bytes_deep_view(b: Vec<u8>)
    ensures
        b.deep_view() == b@,
{
    assert(b.deep_view() =~= b@);
}

pub proof fn lemma_tok_count_le(v: Seq<u8>, pos: int)
    requires
        0 <= pos <= v.len(),
    ensures
        pos <= token_end(v, pos) <= v.len(),
        token_end(v, pos) < v.len() ==> !is_token_byte(v[token_end(v, pos)]),
        forall|j: int| pos <= j < token_end(v, pos) ==> is_token_byte(v[j]),
    decreases v.len() - pos,
{
    if pos < v.len() && is_token_byte(v[pos]) {
        lemma_tok_count_le(v, pos + 1);
        assert forall|j: int| pos <= j < token_end(v, pos) implies is_token_byte(v[j]) by {
            if j > pos {
                assert(is_token_byte(v[j]));
            }
        }
    }
}

/// Bytes that may stand inside a quoted string: anything but the quote and
/// the backslash (escapes are not part of the grammar).
pub open spec fn is_str_byte(b: u8) -> bool {
    b != 0x22 && b != 0x5c
}

/// Length of the string-content run that starts at `pos`.
pub open spec fn str_count(v: Seq<u8>, pos: int) -> nat
    decreases v.len() - pos,
{
    if 0 <= pos < v.len() && is_str_byte(v[pos]) {
        1 + str_count(v, pos + 1)
    } else {
        0
    }
}

/// First position at or after `pos` that holds a quote or a backslash.
pub open spec fn str_end(v: Seq<u8>, pos: int) -> int {
    pos + str_count(v, pos)
}

/// Length of the digit run that starts at `pos`.
pub open spec fn dig_count(v: Seq<u8>, pos: int) -> nat
    decreases v.len() - pos,
{
    if 0 <= pos < v.len() && is_digit(v[pos]) {
        1 + dig_count(v, pos + 1)
    } else {
        0
    }
}

/// First position at or after `pos` that does not hold a digit.
pub open spec fn dig_end(v: Seq<u8>, pos: int) -> int {
    pos + dig_count(v, pos)
}

/// Bytes that may stand in an unquoted scalar value (a number, `true`,
/// `false`, `null`): anything up to a delimiter or whitespace.
pub open spec fn is_scalar_byte(b: u8) -> bool {
    !is_ws(b) && b != 0x2c && b != 0x7d && b != 0x5d && b != 0x7b && b != 0x5b && b != 0x22
        && b != 0x3a
}

/// Length of the scalar run that starts at `pos`.
pub open spec fn scl_count(v: Seq<u8>, pos: int) -> nat
    decreases v.len() - pos,
{
    if 0 <= pos < v.len() && is_scalar_byte(v[pos]) {
        1 + scl_count(v, pos + 1)
    } else {
        0
    }
}

/// First position at or after `pos` that does not hold a scalar byte.
pub open spec fn scl_end(v: Seq<u8>, pos: int) -> int {
    pos + scl_count(v, pos)
}

/// ASCII lower-casing of one byte.
pub open spec fn lower(b: u8) -> u8 {
    if 0x41 <= b <= 0x5a {
        (b + 0x20) as u8
    } else {
        b
    }
}

/// The numeric value of an ASCII digit byte.
pub open spec fn digit_of(b: u8) -> nat {
    if is_digit(b) {
        (b - 0x30) as nat
    } else {
        0
    }
}

/// Whether `[lo, hi)` holds decimal digits only.
pub open spec fn all_digits(v: Seq<u8>, lo: int, hi: int) -> bool {
    forall|j: int| lo <= j < hi ==> is_digit(#[trigger] v[j])
}

/// Value of the decimal digit run `[lo, hi)`.
pub open spec fn digits_val(v: Seq<u8>, lo: int, hi: int) -> nat
    decreases hi - lo,
{
    if hi <= lo {
        0
    } else {
        digits_val(v, lo, hi - 1) * 10 + digit_of(v[hi - 1])
    }
}

/// A whitespace run that provably ends at `e` places `skip_ws` there.
pub proof fn lemma_skip_ws_exact(v: Seq<u8>, s: int, e: int)
    requires
        0 <= s <= e <= v.len(),
        forall|j: int| s <= j < e ==> is_ws(#[trigger] v[j]),
        e == v.len() || !is_ws(v[e]),
    ensures
        skip_ws(v, s) == e,
    decreases e - s,
{
    if s < e {
        lemma_skip_ws_exact(v, s + 1, e);
    }
}

/// A string-content run that provably ends at `e` places `str_end` there.
pub proof fn lemma_str_end_exact(v: Seq<u8>, s: int, e: int)
    requires
        0 <= s <= e <= v.len(),
        forall|j: int| s <= j < e ==> is_str_byte(#[trigger] v[j]),
        e == v.len() || !is_str_byte(v[e]),
    ensures
        str_end(v, s) == e,
    decreases e - s,
{
    if s < e {
        lemma_str_end_exact(v, s + 1, e);
    }
}

/// A digit run that provably ends at `e` places `dig_end` there.
pub proof fn lemma_dig_end_exact(v: Seq<u8>, s: int, e: int)
    requires
        0 <= s <= e <= v.len(),
        forall|j: int| s <= j < e ==> is_digit(#[trigger] v[j]),
        e == v.len() || !is_digit(v[e]),
    ensures
        dig_end(v, s) == e,
    decreases e - s,
{
    if s < e {
        lemma_dig_end_exact(v, s + 1, e);
    }
}

/// The bytes of a string-content run are content bytes, and the run stops at
/// the first byte that is not one.
pub proof fn lemma_str_count_le(v: Seq<u8>, pos: int)
    requires
        0 <= pos <= v.len(),
    ensures
        pos <= str_end(v, pos) <= v.len(),
        str_end(v, pos) < v.len() ==> !is_str_byte(v[str_end(v, pos)]),
        forall|j: int| pos <= j < str_end(v, pos) ==> is_str_byte(v[j]),
    decreases v.len() - pos,
{
    if pos < v.len() && is_str_byte(v[pos]) {
        lemma_str_count_le(v, pos + 1);
        assert forall|j: int| pos <= j < str_end(v, pos) implies is_str_byte(v[j]) by {
            if j > pos {
                assert(is_str_byte(v[j]));
            }
        }
    }
}

/// A token run that provably ends at `e` places `token_end` there.
pub proof fn lemma_token_end_exact(v: Seq<u8>, s: int, e: int)
    requires
        0 <= s <= e <= v.len(),
        forall|j: int| s <= j < e ==> is_token_byte(#[trigger] v[j]),
        e == v.len() || !is_token_byte(v[e]),
    ensures
        token_end(v, s) == e,
    decreases e - s,
{
    if s < e {
        lemma_token_end_exact(v, s + 1, e);
    }
}

pub fn is_ws_e(b: u8) -> (r: bool)
    ensures
        r == is_ws(b),
{
    b == 0x20 || b == 0x09 || b == 0x0a || b == 0x0d
}

pub fn is_digit_e(b: u8) -> (r: bool)
    ensures
        r == is_digit(b),
{
    0x30 <= b && b <= 0x39
}

pub fn is_token_byte_e(b: u8) -> (r: bool)
    ensures
        r == is_token_byte(b),
{
    (0x41 <= b && b <= 0x5a) || (0x61 <= b && b <= 0x7a) || (0x30 <= b && b <= 0x39) || b == 0x5f
        || b == 0x3a || b == 0x2e || b == 0x2d
}

/// Advances past the whitespace run that starts at `pos`.
pub fn skip_ws_e(v: &Vec<u8>, pos: usize) -> (r: usize)
    requires
        pos <= v.len(),
    ensures
        r as int == skip_ws(v@, pos as int),
        pos <= r <= v.len(),
{
    let mut i = pos;
    while i < v.len() && is_ws_e(v[i])
        invariant
            pos <= i <= v.len(),
            skip_ws(v@, pos as int) == skip_ws(v@, i as int),
        decreases v.len() - i,
    {
        i = i + 1;
    }
    i
}

/// Advances past the predicate-token run that starts at `pos`.
pub fn token_end_e(v: &Vec<u8>, pos: usize) -> (r: usize)
    requires
        pos <= v.len(),
    ensures
        r as int == token_end(v@, pos as int),
        pos <= r <= v.len(),
{
    let mut i = pos;
    while i < v.len() && is_token_byte_e(v[i])
        invariant
            pos <= i <= v.len(),
            token_end(v@, pos as int) == token_end(v@, i as int),
        decreases v.len() - i,
    {
        i = i + 1;
    }
    i
}

pub fn lower_e(b: u8) -> (r: u8)
    ensures
        r == lower(b),
{
    if 0x41 <= b && b <= 0x5a {
        b + 0x20
    } else {
        b
    }
}

pub fn all_digits_e(v: &Vec<u8>, lo: usize, hi: usize) -> (r: bool)
    requires
        lo <= hi <= v.len(),
    ensures
        r == all_digits(v@, lo as int, hi as int),
{
    let mut i = lo;
    while i < hi
        invariant
            lo <= i <= hi <= v.len(),
            forall|j: int| lo <= j < i ==> is_digit(#[trigger] v@[j]),
        decreases hi - i,
    {
        if !is_digit_e(v[i]) {
            return false;
        }
        i = i + 1;
    }
    true
}

/// Reads the decimal run `[lo, hi)` as a machine word; `None` when the value
/// does not fit.
pub fn digits_val_e(v: &Vec<u8>, lo: usize, hi: usize) -> (r: Option<usize>)
    requires
        lo <= hi <= v.len(),
    ensures
        match r {
            Some(k) => k as nat == digits_val(v@, lo as int, hi as int),
            None => digits_val(v@, lo as int, hi as int) > usize::MAX,
        },
{
    let mut i = lo;
    let mut acc: usize = 0;
    let mut overflow = false;
    while i < hi
        invariant
            lo <= i <= hi <= v.len(),
            !overflow ==> acc as nat == digits_val(v@, lo as int, i as int),
            overflow ==> digits_val(v@, lo as int, i as int) > usize::MAX,
        decreases hi - i,
    {
        let d: u8 = if 0x30 <= v[i] && v[i] <= 0x39 {
            v[i] - 0x30
        } else {
            0
        };
        proof {
            let dv = digits_val(v@, lo as int, i as int);
            assert(digits_val(v@, lo as int, i + 1int) == dv * 10 + digit_of(v@[i as int]));
            if overflow {
                assert(dv * 10 >= dv) by (nonlinear_arith)
                    requires
                        dv >= 0,
                ;
            }
        }
        if !overflow {
            let m = acc.checked_mul(10);
            match m {
                Some(m10) => {
                    let s = m10.checked_add(d as usize);
                    match s {
                        Some(a2) => {
                            acc = a2;
                        },
                        None => {
                            overflow = true;
                        },
                    }
                },
                None => {
                    overflow = true;
                },
            }
        }
        i = i + 1;
    }
    if overflow {
        None
    } else {
        Some(acc)
    }
}

/// A fresh copy of the bytes `[lo, hi)`.
pub fn subvec(v: &Vec<u8>, lo: usize, hi: usize) -> (r: Vec<u8>)
    requires
        lo <= hi <= v.len(),
    ensures
        r@ == v@.subrange(lo as int, hi as int),
{
    let mut r: Vec<u8> = Vec::new();
    let mut i = lo;
    while i < hi
        invariant
            lo <= i <= hi <= v.len(),
            r@ =~= v@.subrange(lo as int, i as int),
        decreases hi - i,
    {
        r.push(v[i]);
        proof {
            assert(r@ =~= v@.subrange(lo as int, i + 1int));
        }
        i = i + 1;
    }
    r
}

pub fn is_str_byte_e(b: u8) -> (r: bool)
    ensures
        r == is_str_byte(b),
{
    b != 0x22 && b != 0x5c
}

/// Advances past the string-content run that starts at `pos`.
pub fn str_end_e(v: &Vec<u8>, pos: usize) -> (r: usize)
    requires
        pos <= v.len(),
    ensures
        r as int == str_end(v@, pos as int),
        pos <= r <= v.len(),
{
    let mut i = pos;
    while i < v.len() && is_str_byte_e(v[i])
        invariant
            pos <= i <= v.len(),
            str_end(v@, pos as int) == str_end(v@, i as int),
        decreases v.len() - i,
    {
        i = i + 1;
    }
    i
}

/// Advances past the scalar run that starts at `pos`.
pub fn scl_end_e(v: &Vec<u8>, pos: usize) -> (r: usize)
    requires
        pos <= v.len(),
    ensures
        r as int == scl_end(v@, pos as int),
        pos <= r <= v.len(),
{
    let mut i = pos;
    while i < v.len() && is_scalar_byte_e(v[i])
        invariant
            pos <= i <= v.len(),
            scl_end(v@, pos as int) == scl_end(v@, i as int),
        decreases v.len() - i,
    {
        i = i + 1;
    }
    i
}

pub fn is_scalar_byte_e(b: u8) -> (r: bool)
    ensures
        r == is_scalar_byte(b),
{
    !(b == 0x20 || b == 0x09 || b == 0x0a || b == 0x0d) && b != 0x2c && b != 0x7d && b != 0x5d
        && b != 0x7b && b != 0x5b && b != 0x22 && b != 0x3a
}

/// Advances past the digit run that starts at `pos`.
pub fn dig_end_e(v: &Vec<u8>, pos: usize) -> (r: usize)
    requires
        pos <= v.len(),
    ensures
        r as int == dig_end(v@, pos as int),
        pos <= r <= v.len(),
{
    let mut i = pos;
    while i < v.len() && is_digit_e(v[i])
        invariant
            pos <= i <= v.len(),
            dig_end(v@, pos as int) == dig_end(v@, i as int),
        decreases v.len() - i,
    {
        i = i + 1;
    }
    i
}

/// Byte-string equality.
pub fn bytes_eq(a: &Vec<u8>, b: &Vec<u8>) -> (r: bool)
    ensures
        r == (a@ == b@),
{
    if a.len() != b.len() {
        return false;
    }
    let mut i: usize = 0;
    while i < a.len()
        invariant
            i <= a.len(),
            a.len() == b.len(),
            forall|j: int| 0 <= j < i ==> a@[j] == b@[j],
        decreases a.len() - i,
    {
        if a[i] != b[i] {
            return false;
        }
        i = i + 1;
    }
    proof {
        assert(a@ =~= b@);
    }
    true
}

} // verus!
