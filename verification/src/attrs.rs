//! Attribute extraction: reads a structured attribute document shaped like
//! `{"attributes": [ {"<name>": "<value>", ...}, ... ]}` and yields, from the
//! textually first pair of each attribute object, either bare names or
//! `name:value` strings, deduplicated by exact textual form with first
//! occurrences kept in place. A document that does not follow the form yields
//! the empty attribute set by design: a malformed document degrades to "no
//! attributes", never an error.
//!
//! The reader is tolerant, not a validating JSON parser. Other keys may stand
//! beside `attributes` (the first `attributes` key whose value is an array
//! wins); array elements that are not objects, and empty objects, contribute
//! nothing; a pair whose value is not a quoted string (a number, `true`,
//! `false`, `null`, a nested object or array) contributes the empty value
//! string under the `name:value` convention. Pairs are read in document
//! order: where an object holds several, the textually first pair is the one
//! the set speaks of, never a re-sorted key order. Quoted strings carry no
//! escapes, and unquoted scalars are read as any delimiter-free run without
//! being re-validated as JSON numbers or words.

use vstd::prelude::*;
use vstd::string::StrSliceExecFns;
use vstd::string::StringSliceAdditionalSpecFns;
use crate::scan::{skip_ws, str_end, scl_end, skip_ws_e, str_end_e, scl_end_e, subvec};
use crate::tree::contains_bytes;

verus! {

/// Which textual form of an attribute a policy's leaves speak of: the bare
/// name, or the `name:value` pair. The convention is fixed by the policy
/// dialect before evaluation, never re-derived from attribute content.
#[derive(Clone, Copy, PartialEq, Eq, Structural, Debug)]
pub enum MatchConvention {
    NameOnly,
    NameValue,
}

/// The bytes of the key `attributes`.
pub open spec fn attributes_lit() -> Seq<u8> {
    seq![0x61u8, 0x74u8, 0x74u8, 0x72u8, 0x69u8, 0x62u8, 0x75u8, 0x74u8, 0x65u8, 0x73u8]
}

/// The bytes of the key `policy`.
pub open spec fn policy_lit() -> Seq<u8> {
    seq![0x70u8, 0x6fu8, 0x6cu8, 0x69u8, 0x63u8, 0x79u8]
}

/// A quoted string standing exactly at `pos`: its content and the position
/// after the closing quote.
pub open spec fn q_str(v: Seq<u8>, pos: int) -> Option<(Seq<u8>, int)> {
    if 0 <= pos < v.len() && v[pos] == 0x22 {
        let lo = pos + 1;
        let hi = str_end(v, lo);
        if hi < v.len() && v[hi] == 0x22 {
            Some((v.subrange(lo, hi), hi + 1))
        } else {
            None
        }
    } else {
        None
    }
}

/// Skips one value standing exactly at `pos`: a quoted string, an object, an
/// array, or an unquoted scalar run. Yields the position after the value.
pub open spec fn v_skip(v: Seq<u8>, pos: int) -> Option<int>
    decreases v.len() - pos, 0int,
{
    if !(0 <= pos < v.len()) {
        None
    } else if v[pos] == 0x22 {
        let hi = str_end(v, pos + 1);
        if hi < v.len() && v[hi] == 0x22 {
            Some(hi + 1)
        } else {
            None
        }
    } else if v[pos] == 0x7b {
        let p1 = skip_ws(v, pos + 1);
        if p1 < v.len() && v[p1] == 0x7d {
            Some(p1 + 1)
        } else if p1 <= v.len() {
            v_obj_rest(v, p1)
        } else {
            None
        }
    } else if v[pos] == 0x5b {
        let p1 = skip_ws(v, pos + 1);
        if p1 < v.len() && v[p1] == 0x5d {
            Some(p1 + 1)
        } else if p1 <= v.len() {
            v_arr_rest(v, p1)
        } else {
            None
        }
    } else {
        let e = scl_end(v, pos);
        if e == pos || e > v.len() {
            None
        } else {
            Some(e)
        }
    }
}

/// Skips one `"key" : value` pair standing exactly at `pos`.
pub open spec fn v_pair(v: Seq<u8>, pos: int) -> Option<int>
    decreases v.len() - pos, 1int,
{
    match q_str(v, pos) {
        None => None,
        Some((_key, p1)) => {
            let pc = skip_ws(v, p1);
            if pc < v.len() && v[pc] == 0x3a {
                let pv = skip_ws(v, pc + 1);
                if pos < pv <= v.len() {
                    v_skip(v, pv)
                } else {
                    None
                }
            } else {
                None
            }
        },
    }
}

/// Skips the pairs of an object from its first pair on, past the closing
/// brace.
pub open spec fn v_obj_rest(v: Seq<u8>, pos: int) -> Option<int>
    decreases v.len() - pos, 2int,
{
    if !(0 <= pos <= v.len()) {
        None
    } else {
        match v_pair(v, pos) {
            None => None,
            Some(p2) => {
                if pos < p2 <= v.len() {
                    let ps = skip_ws(v, p2);
                    if ps < v.len() && v[ps] == 0x7d {
                        Some(ps + 1)
                    } else if ps < v.len() && v[ps] == 0x2c {
                        let pn = skip_ws(v, ps + 1);
                        if pn <= v.len() {
                            v_obj_rest(v, pn)
                        } else {
                            None
                        }
                    } else {
                        None
                    }
                } else {
                    None
                }
            },
        }
    }
}

/// Skips the elements of an array from its first element on, past the
/// closing bracket.
pub open spec fn v_arr_rest(v: Seq<u8>, pos: int) -> Option<int>
    decreases v.len() - pos, 2int,
{
    if !(0 <= pos <= v.len()) {
        None
    } else {
        match v_skip(v, pos) {
            None => None,
            Some(p2) => {
                if pos < p2 <= v.len() {
                    let ps = skip_ws(v, p2);
                    if ps < v.len() && v[ps] == 0x5d {
                        Some(ps + 1)
                    } else if ps < v.len() && v[ps] == 0x2c {
                        let pn = skip_ws(v, ps + 1);
                        if pn <= v.len() {
                            v_arr_rest(v, pn)
                        } else {
                            None
                        }
                    } else {
                        None
                    }
                } else {
                    None
                }
            },
        }
    }
}

/// The value of a pair as attribute text: the content of a quoted string, or
/// the empty string for any other value shape.
pub open spec fn a_val(v: Seq<u8>, pos: int) -> Option<(Seq<u8>, int)> {
    if 0 <= pos < v.len() && v[pos] == 0x22 {
        q_str(v, pos)
    } else {
        match v_skip(v, pos) {
            None => None,
            Some(p) => Some((Seq::empty(), p)),
        }
    }
}

/// A `"name" : value` pair standing exactly at `pos`, read for extraction.
pub open spec fn a_pair(v: Seq<u8>, pos: int) -> Option<(Seq<u8>, Seq<u8>, int)> {
    match q_str(v, pos) {
        None => None,
        Some((name, p1)) => {
            let pc = skip_ws(v, p1);
            if pc < v.len() && v[pc] == 0x3a {
                let pv = skip_ws(v, pc + 1);
                if pv <= v.len() {
                    match a_val(v, pv) {
                        None => None,
                        Some((val, p2)) => Some((name, val, p2)),
                    }
                } else {
                    None
                }
            } else {
                None
            }
        },
    }
}

/// The pairs of an attribute object past the first, and its closing brace:
/// the position after `}`.
pub open spec fn a_rest(v: Seq<u8>, pos: int) -> Option<int>
    decreases v.len() - pos,
{
    if !(0 <= pos <= v.len()) {
        None
    } else {
        let ps = skip_ws(v, pos);
        if ps < v.len() && v[ps] == 0x7d {
            Some(ps + 1)
        } else if ps < v.len() && v[ps] == 0x2c {
            let pq = skip_ws(v, ps + 1);
            if pq <= v.len() {
                match v_pair(v, pq) {
                    None => None,
                    Some(p2) => if pos < p2 <= v.len() {
                        a_rest(v, p2)
                    } else {
                        None
                    },
                }
            } else {
                None
            }
        } else {
            None
        }
    }
}

/// The attribute an object's first pair denotes under `conv`.
pub open spec fn item_of(name: Seq<u8>, val: Seq<u8>, conv: MatchConvention) -> Seq<u8> {
    match conv {
        MatchConvention::NameOnly => name,
        MatchConvention::NameValue => name + seq![0x3au8] + val,
    }
}

/// One attribute object standing exactly at `pos` (its opening brace): the
/// item its textually first pair denotes, or nothing for an empty object.
pub open spec fn a_obj(v: Seq<u8>, pos: int, conv: MatchConvention) -> Option<
    (Option<Seq<u8>>, int),
> {
    if !(0 <= pos < v.len() && v[pos] == 0x7b) {
        None
    } else {
        let p1 = skip_ws(v, pos + 1);
        if p1 < v.len() && v[p1] == 0x7d {
            Some((None, p1 + 1))
        } else if p1 <= v.len() {
            match a_pair(v, p1) {
                None => None,
                Some((name, val, p2)) => if 0 <= p2 <= v.len() {
                    match a_rest(v, p2) {
                        None => None,
                        Some(p3) => Some((Some(item_of(name, val, conv)), p3)),
                    }
                } else {
                    None
                },
            }
        } else {
            None
        }
    }
}

/// The elements of the attribute array from `pos` on: objects contribute
/// their item; anything else is skipped.
pub open spec fn a_items(v: Seq<u8>, pos: int, conv: MatchConvention, acc: Seq<Seq<u8>>) -> Option<
    (Seq<Seq<u8>>, int),
>
    decreases v.len() - pos,
{
    if !(0 <= pos <= v.len()) {
        None
    } else {
        let step: Option<(Option<Seq<u8>>, int)> = if pos < v.len() && v[pos] == 0x7b {
            a_obj(v, pos, conv)
        } else {
            match v_skip(v, pos) {
                None => None,
                Some(p) => Some((None, p)),
            }
        };
        match step {
            None => None,
            Some((it, p1)) => {
                if pos < p1 <= v.len() {
                    let acc2 = match it {
                        Some(x) => acc.push(x),
                        None => acc,
                    };
                    let ps = skip_ws(v, p1);
                    if ps < v.len() && v[ps] == 0x5d {
                        Some((acc2, ps + 1))
                    } else if ps < v.len() && v[ps] == 0x2c {
                        let pn = skip_ws(v, ps + 1);
                        if pn <= v.len() {
                            a_items(v, pn, conv, acc2)
                        } else {
                            None
                        }
                    } else {
                        None
                    }
                } else {
                    None
                }
            },
        }
    }
}

/// The attribute array standing exactly at `pos` (its opening bracket).
pub open spec fn a_arr(v: Seq<u8>, pos: int, conv: MatchConvention) -> Option<
    (Seq<Seq<u8>>, int),
> {
    if !(0 <= pos < v.len() && v[pos] == 0x5b) {
        None
    } else {
        let p1 = skip_ws(v, pos + 1);
        if p1 < v.len() && v[p1] == 0x5d {
            Some((Seq::empty(), p1 + 1))
        } else if p1 <= v.len() {
            a_items(v, p1, conv, Seq::empty())
        } else {
            None
        }
    }
}

/// The top-level pairs of the attribute document from `pos` on: the first
/// `attributes` key whose value is an array yields the items; every other
/// pair is skipped.
pub open spec fn top_pairs(
    v: Seq<u8>,
    pos: int,
    conv: MatchConvention,
    found: Option<Seq<Seq<u8>>>,
) -> Option<(Option<Seq<Seq<u8>>>, int)>
    decreases v.len() - pos,
{
    if !(0 <= pos <= v.len()) {
        None
    } else {
        match q_str(v, pos) {
            None => None,
            Some((key, p1)) => {
                let pc = skip_ws(v, p1);
                if !(pc < v.len() && v[pc] == 0x3a) {
                    None
                } else {
                    let pv = skip_ws(v, pc + 1);
                    if pv > v.len() {
                        None
                    } else {
                        let stepped: Option<(Option<Seq<Seq<u8>>>, int)> = if key
                            == attributes_lit() && found is None && pv < v.len() && v[pv]
                            == 0x5b {
                            match a_arr(v, pv, conv) {
                                None => None,
                                Some((items, p2)) => Some((Some(items), p2)),
                            }
                        } else {
                            match v_skip(v, pv) {
                                None => None,
                                Some(p2) => Some((found, p2)),
                            }
                        };
                        match stepped {
                            None => None,
                            Some((f2, p2)) => {
                                if pos < p2 <= v.len() {
                                    let ps = skip_ws(v, p2);
                                    if ps < v.len() && v[ps] == 0x7d {
                                        Some((f2, ps + 1))
                                    } else if ps < v.len() && v[ps] == 0x2c {
                                        let pn = skip_ws(v, ps + 1);
                                        if pn <= v.len() {
                                            top_pairs(v, pn, conv, f2)
                                        } else {
                                            None
                                        }
                                    } else {
                                        None
                                    }
                                } else {
                                    None
                                }
                            },
                        }
                    }
                }
            },
        }
    }
}

/// The attribute sequence an attribute document denotes under `conv`, in
/// document order and with duplicates kept; a document that does not follow
/// the form, or carries no array-valued `attributes` key, denotes the empty
/// sequence.
pub open spec fn spec_extract(v: Seq<u8>, conv: MatchConvention) -> Seq<Seq<u8>> {
    let p0 = skip_ws(v, 0);
    if !(p0 < v.len() && v[p0] == 0x7b) {
        Seq::empty()
    } else {
        let p1 = skip_ws(v, p0 + 1);
        if p1 < v.len() && v[p1] == 0x7d {
            Seq::empty()
        } else if p1 > v.len() {
            Seq::empty()
        } else {
            match top_pairs(v, p1, conv, None) {
                None => Seq::empty(),
                Some((found, end)) => if 0 <= end <= v.len() && skip_ws(v, end) == v.len() {
                    match found {
                        Some(items) => items,
                        None => Seq::empty(),
                    }
                } else {
                    Seq::empty()
                },
            }
        }
    }
}

/// The subsequence of first occurrences: duplicates by exact textual form
/// dropped, order kept.
pub open spec fn dedup_seq(s: Seq<Seq<u8>>) -> Seq<Seq<u8>>
    decreases s.len(),
{
    if s.len() == 0 {
        Seq::empty()
    } else if s.drop_last().contains(s.last()) {
        dedup_seq(s.drop_last())
    } else {
        dedup_seq(s.drop_last()).push(s.last())
    }
}

/// The attribute set the evaluator is fed: the document's attributes,
/// deduplicated by exact textual form.
pub open spec fn spec_attribute_set(v: Seq<u8>, conv: MatchConvention) -> Seq<Seq<u8>> {
    dedup_seq(spec_extract(v, conv))
}

/// Membership in a pushed sequence: the old members and the new element.
proof fn lemma_push_contains(s: Seq<Seq<u8>>, e: Seq<u8>, x: Seq<u8>)
    ensures
        s.push(e).contains(x) <==> (s.contains(x) || x == e),
{
    if s.contains(x) {
        let w = choose|w: int| 0 <= w < s.len() && s[w] == x;
        assert(s.push(e)[w] == x);
    }
    if x == e {
        assert(s.push(e)[s.len() as int] == x);
    }
    if s.push(e).contains(x) {
        let w = choose|w: int| 0 <= w < s.push(e).len() && s.push(e)[w] == x;
        if w < s.len() {
            assert(s[w] == x);
        }
    }
}

/// Deduplication keeps exactly the members.
pub proof fn lemma_dedup_seq_membership(s: Seq<Seq<u8>>, x: Seq<u8>)
    ensures
        dedup_seq(s).contains(x) <==> s.contains(x),
    decreases s.len(),
{
    if s.len() > 0 {
        assert(s.drop_last().push(s.last()) =~= s);
        lemma_dedup_seq_membership(s.drop_last(), x);
        lemma_push_contains(s.drop_last(), s.last(), x);
        lemma_push_contains(dedup_seq(s.drop_last()), s.last(), x);
    }
}

/// Deduplication leaves no two equal entries.
pub proof fn lemma_dedup_seq_distinct(s: Seq<Seq<u8>>)
    ensures
        forall|i: int, j: int|
            0 <= i < j < dedup_seq(s).len() ==> dedup_seq(s)[i] != dedup_seq(s)[j],
    decreases s.len(),
{
    if s.len() > 0 {
        let pre = dedup_seq(s.drop_last());
        lemma_dedup_seq_distinct(s.drop_last());
        if !s.drop_last().contains(s.last()) {
            lemma_dedup_seq_membership(s.drop_last(), s.last());
            assert forall|i: int, j: int|
                0 <= i < j < dedup_seq(s).len() implies dedup_seq(s)[i] != dedup_seq(s)[j] by {
                if j < pre.len() {
                    assert(pre[i] != pre[j]);
                } else {
                    assert(dedup_seq(s)[j] == s.last());
                    assert(dedup_seq(s)[i] == pre[i]);
                    if pre[i] == s.last() {
                        assert(pre.contains(s.last()));
                    }
                }
            }
        }
    }
}

/// Normalizes an attribute sequence: duplicates by exact textual form are
/// dropped, and the first occurrence of each attribute keeps its place, so
/// the audit order survives while satisfaction is untouched.
pub fn dedup_attributes(attrs: &Vec<Vec<u8>>) -> (r: Vec<Vec<u8>>)
    ensures
        r.deep_view() == dedup_seq(attrs.deep_view()),
{
    let mut out: Vec<Vec<u8>> = Vec::new();
    let mut i: usize = 0;
    proof {
        assert(out.deep_view() =~= dedup_seq(attrs.deep_view().subrange(0, 0)));
    }
    while i < attrs.len()
        invariant
            i <= attrs.len(),
            out.deep_view() == dedup_seq(attrs.deep_view().subrange(0, i as int)),
        decreases attrs.len() - i,
    {
        let ghost pre_out = out.deep_view();
        let ghost pre = attrs.deep_view().subrange(0, i as int);
        let ghost cur = attrs.deep_view();
        proof {
            assert(attrs.deep_view()[i as int] == attrs@[i as int]@);
            lemma_dedup_seq_membership(pre, cur[i as int]);
        }
        if !contains_bytes(&out, &attrs[i]) {
            let item = subvec(&attrs[i], 0, attrs[i].len());
            let ghost item0 = item@;
            out.push(item);
            proof {
                crate::scan::lemma_bytes_deep_view(out@[out@.len() - 1]);
                assert(out.deep_view() =~= pre_out.push(item0));
                assert(item0 == cur[i as int]);
            }
        }
        proof {
            let sub1 = attrs.deep_view().subrange(0, i + 1int);
            assert(sub1.drop_last() =~= pre);
            assert(sub1.last() == cur[i as int]);
        }
        i = i + 1;
    }
    proof {
        assert(attrs.deep_view().subrange(0, attrs.deep_view().len() as int) =~= attrs.deep_view());
    }
    out
}

fn e_q_str(v: &Vec<u8>, pos: usize) -> (r: Option<(Vec<u8>, usize)>)
    requires
        pos <= v.len(),
    ensures
        match r {
            Some((s, p)) => q_str(v@, pos as int) == Some((s@, p as int)) && pos < p <= v.len(),
            None => q_str(v@, pos as int) is None,
        },
{
    if pos < v.len() && v[pos] == 0x22 {
        let lo = pos + 1;
        let hi = str_end_e(v, lo);
        if hi < v.len() && v[hi] == 0x22 {
            Some((subvec(v, lo, hi), hi + 1))
        } else {
            None
        }
    } else {
        None
    }
}

fn e_v_skip(v: &Vec<u8>, pos: usize) -> (r: Option<usize>)
    requires
        pos <= v.len(),
    ensures
        match r {
            Some(p) => v_skip(v@, pos as int) == Some(p as int) && pos < p <= v.len(),
            None => v_skip(v@, pos as int) is None,
        },
    decreases v.len() - pos, 0int,
{
    if !(pos < v.len()) {
        None
    } else if v[pos] == 0x22 {
        let hi = str_end_e(v, pos + 1);
        if hi < v.len() && v[hi] == 0x22 {
            Some(hi + 1)
        } else {
            None
        }
    } else if v[pos] == 0x7b {
        let p1 = skip_ws_e(v, pos + 1);
        if p1 < v.len() && v[p1] == 0x7d {
            Some(p1 + 1)
        } else {
            e_v_obj_rest(v, p1)
        }
    } else if v[pos] == 0x5b {
        let p1 = skip_ws_e(v, pos + 1);
        if p1 < v.len() && v[p1] == 0x5d {
            Some(p1 + 1)
        } else {
            e_v_arr_rest(v, p1)
        }
    } else {
        let e = scl_end_e(v, pos);
        if e == pos {
            None
        } else {
            Some(e)
        }
    }
}

fn e_v_pair(v: &Vec<u8>, pos: usize) -> (r: Option<usize>)
    requires
        pos <= v.len(),
    ensures
        match r {
            Some(p) => v_pair(v@, pos as int) == Some(p as int) && pos < p <= v.len(),
            None => v_pair(v@, pos as int) is None,
        },
    decreases v.len() - pos, 1int,
{
    match e_q_str(v, pos) {
        None => None,
        Some((_key, p1)) => {
            let pc = skip_ws_e(v, p1);
            if pc < v.len() && v[pc] == 0x3a {
                let pv = skip_ws_e(v, pc + 1);
                e_v_skip(v, pv)
            } else {
                None
            }
        },
    }
}

fn e_v_obj_rest(v: &Vec<u8>, pos: usize) -> (r: Option<usize>)
    requires
        pos <= v.len(),
    ensures
        match r {
            Some(p) => v_obj_rest(v@, pos as int) == Some(p as int) && pos < p <= v.len(),
            None => v_obj_rest(v@, pos as int) is None,
        },
    decreases v.len() - pos, 2int,
{
    match e_v_pair(v, pos) {
        None => None,
        Some(p2) => {
            let ps = skip_ws_e(v, p2);
            if ps < v.len() && v[ps] == 0x7d {
                Some(ps + 1)
            } else if ps < v.len() && v[ps] == 0x2c {
                let pn = skip_ws_e(v, ps + 1);
                e_v_obj_rest(v, pn)
            } else {
                None
            }
        },
    }
}

fn e_v_arr_rest(v: &Vec<u8>, pos: usize) -> (r: Option<usize>)
    requires
        pos <= v.len(),
    ensures
        match r {
            Some(p) => v_arr_rest(v@, pos as int) == Some(p as int) && pos < p <= v.len(),
            None => v_arr_rest(v@, pos as int) is None,
        },
    decreases v.len() - pos, 2int,
{
    match e_v_skip(v, pos) {
        None => None,
        Some(p2) => {
            let ps = skip_ws_e(v, p2);
            if ps < v.len() && v[ps] == 0x5d {
                Some(ps + 1)
            } else if ps < v.len() && v[ps] == 0x2c {
                let pn = skip_ws_e(v, ps + 1);
                e_v_arr_rest(v, pn)
            } else {
                None
            }
        },
    }
}

fn e_a_val(v: &Vec<u8>, pos: usize) -> (r: Option<(Vec<u8>, usize)>)
    requires
        pos <= v.len(),
    ensures
        match r {
            Some((s, p)) => a_val(v@, pos as int) == Some((s@, p as int)) && pos < p <= v.len(),
            None => a_val(v@, pos as int) is None,
        },
{
    if pos < v.len() && v[pos] == 0x22 {
        e_q_str(v, pos)
    } else {
        match e_v_skip(v, pos) {
            None => None,
            Some(p) => {
                let empty: Vec<u8> = Vec::new();
                proof {
                    assert(empty@ =~= Seq::<u8>::empty());
                }
                Some((empty, p))
            },
        }
    }
}

fn e_a_pair(v: &Vec<u8>, pos: usize) -> (r: Option<(Vec<u8>, Vec<u8>, usize)>)
    requires
        pos <= v.len(),
    ensures
        match r {
            Some((n, val, p)) => a_pair(v@, pos as int) == Some((n@, val@, p as int)) && pos < p
                <= v.len(),
            None => a_pair(v@, pos as int) is None,
        },
{
    match e_q_str(v, pos) {
        None => None,
        Some((name, p1)) => {
            let pc = skip_ws_e(v, p1);
            if pc < v.len() && v[pc] == 0x3a {
                let pv = skip_ws_e(v, pc + 1);
                match e_a_val(v, pv) {
                    None => None,
                    Some((val, p2)) => Some((name, val, p2)),
                }
            } else {
                None
            }
        },
    }
}

fn e_a_rest(v: &Vec<u8>, pos: usize) -> (r: Option<usize>)
    requires
        pos <= v.len(),
    ensures
        match r {
            Some(p) => a_rest(v@, pos as int) == Some(p as int) && pos <= p <= v.len(),
            None => a_rest(v@, pos as int) is None,
        },
    decreases v.len() - pos,
{
    let ps = skip_ws_e(v, pos);
    if ps < v.len() && v[ps] == 0x7d {
        Some(ps + 1)
    } else if ps < v.len() && v[ps] == 0x2c {
        let pq = skip_ws_e(v, ps + 1);
        match e_v_pair(v, pq) {
            None => None,
            Some(p2) => e_a_rest(v, p2),
        }
    } else {
        None
    }
}

fn e_a_obj(v: &Vec<u8>, pos: usize, conv: MatchConvention) -> (r: Option<
    (Option<Vec<u8>>, usize),
>)
    requires
        pos <= v.len(),
    ensures
        match r {
            Some((it, p)) => {
                &&& pos < p <= v.len()
                &&& match it {
                    Some(item) => a_obj(v@, pos as int, conv) == Some(
                        (Some(item@), p as int),
                    ),
                    None => a_obj(v@, pos as int, conv) == Some(
                        (None::<Seq<u8>>, p as int),
                    ),
                }
            },
            None => a_obj(v@, pos as int, conv) is None,
        },
{
    if !(pos < v.len() && v[pos] == 0x7b) {
        return None;
    }
    let p1 = skip_ws_e(v, pos + 1);
    if p1 < v.len() && v[p1] == 0x7d {
        return Some((None, p1 + 1));
    }
    match e_a_pair(v, p1) {
        None => None,
        Some((name, val, p2)) => {
            match e_a_rest(v, p2) {
                None => None,
                Some(p3) => {
                    let ghost name0 = name@;
                    let ghost val0 = val@;
                    let item = match conv {
                        MatchConvention::NameOnly => name,
                        MatchConvention::NameValue => {
                            let mut it = name;
                            let mut tail = val;
                            it.push(0x3a);
                            it.append(&mut tail);
                            proof {
                                assert(it@ =~= name0 + seq![0x3au8] + val0);
                            }
                            it
                        },
                    };
                    Some((Some(item), p3))
                },
            }
        },
    }
}

fn e_a_items(v: &Vec<u8>, pos: usize, conv: MatchConvention, acc: Vec<Vec<u8>>) -> (r: Option<
    (Vec<Vec<u8>>, usize),
>)
    requires
        pos <= v.len(),
    ensures
        match r {
            Some((items, p)) => a_items(v@, pos as int, conv, acc.deep_view()) == Some(
                (items.deep_view(), p as int),
            ) && pos <= p <= v.len(),
            None => a_items(v@, pos as int, conv, acc.deep_view()) is None,
        },
    decreases v.len() - pos,
{
    let step: Option<(Option<Vec<u8>>, usize)> = if pos < v.len() && v[pos] == 0x7b {
        e_a_obj(v, pos, conv)
    } else {
        match e_v_skip(v, pos) {
            None => None,
            Some(p) => Some((None, p)),
        }
    };
    match step {
        None => None,
        Some((it, p1)) => {
            let mut acc2 = acc;
            match it {
                Some(item) => {
                    let ghost pre = acc2.deep_view();
                    let ghost item0 = item@;
                    acc2.push(item);
                    proof {
                        crate::scan::lemma_bytes_deep_view(acc2@[acc2@.len() - 1]);
                        assert(acc2.deep_view() =~= pre.push(item0));
                    }
                },
                None => {},
            }
            let ps = skip_ws_e(v, p1);
            if ps < v.len() && v[ps] == 0x5d {
                Some((acc2, ps + 1))
            } else if ps < v.len() && v[ps] == 0x2c {
                let pn = skip_ws_e(v, ps + 1);
                e_a_items(v, pn, conv, acc2)
            } else {
                None
            }
        },
    }
}

fn e_a_arr(v: &Vec<u8>, pos: usize, conv: MatchConvention) -> (r: Option<(Vec<Vec<u8>>, usize)>)
    requires
        pos <= v.len(),
    ensures
        match r {
            Some((items, p)) => a_arr(v@, pos as int, conv) == Some(
                (items.deep_view(), p as int),
            ) && pos <= p <= v.len(),
            None => a_arr(v@, pos as int, conv) is None,
        },
{
    if !(pos < v.len() && v[pos] == 0x5b) {
        return None;
    }
    let p1 = skip_ws_e(v, pos + 1);
    if p1 < v.len() && v[p1] == 0x5d {
        let empty: Vec<Vec<u8>> = Vec::new();
        proof {
            assert(empty.deep_view() =~= Seq::<Seq<u8>>::empty());
        }
        return Some((empty, p1 + 1));
    }
    let empty: Vec<Vec<u8>> = Vec::new();
    proof {
        assert(empty.deep_view() =~= Seq::<Seq<u8>>::empty());
    }
    e_a_items(v, p1, conv, empty)
}

fn e_top_pairs(v: &Vec<u8>, pos: usize, conv: MatchConvention, found: Option<Vec<Vec<u8>>>) -> (r:
    Option<(Option<Vec<Vec<u8>>>, usize)>)
    requires
        pos <= v.len(),
    ensures
        ({
            let sfound = match found {
                Some(items) => Some(items.deep_view()),
                None => None::<Seq<Seq<u8>>>,
            };
            match r {
                Some((f, p)) => {
                    &&& pos <= p <= v.len()
                    &&& match f {
                        Some(items) => top_pairs(v@, pos as int, conv, sfound) == Some(
                            (Some(items.deep_view()), p as int),
                        ),
                        None => top_pairs(v@, pos as int, conv, sfound) == Some(
                            (None::<Seq<Seq<u8>>>, p as int),
                        ),
                    }
                },
                None => top_pairs(v@, pos as int, conv, sfound) is None,
            }
        }),
    decreases v.len() - pos,
{
    match e_q_str(v, pos) {
        None => None,
        Some((key, p1)) => {
            let pc = skip_ws_e(v, p1);
            if !(pc < v.len() && v[pc] == 0x3a) {
                return None;
            }
            let pv = skip_ws_e(v, pc + 1);
            let take_here = is_attributes_key_e(&key) && found.is_none() && pv < v.len() && v[pv]
                == 0x5b;
            let stepped: Option<(Option<Vec<Vec<u8>>>, usize)> = if take_here {
                match e_a_arr(v, pv, conv) {
                    None => None,
                    Some((items, p2)) => Some((Some(items), p2)),
                }
            } else {
                match e_v_skip(v, pv) {
                    None => None,
                    Some(p2) => Some((found, p2)),
                }
            };
            match stepped {
                None => None,
                Some((f2, p2)) => {
                    let ps = skip_ws_e(v, p2);
                    if ps < v.len() && v[ps] == 0x7d {
                        Some((f2, ps + 1))
                    } else if ps < v.len() && v[ps] == 0x2c {
                        let pn = skip_ws_e(v, ps + 1);
                        e_top_pairs(v, pn, conv, f2)
                    } else {
                        None
                    }
                },
            }
        },
    }
}

/// The document's attributes in order, duplicates kept.
fn extract_raw(v: &Vec<u8>, conv: MatchConvention) -> (r: Vec<Vec<u8>>)
    ensures
        r.deep_view() == spec_extract(v@, conv),
{
    let empty: Vec<Vec<u8>> = Vec::new();
    proof {
        assert(empty.deep_view() =~= Seq::<Seq<u8>>::empty());
    }
    let p0 = skip_ws_e(v, 0);
    if !(p0 < v.len() && v[p0] == 0x7b) {
        return empty;
    }
    let p1 = skip_ws_e(v, p0 + 1);
    if p1 < v.len() && v[p1] == 0x7d {
        return empty;
    }
    match e_top_pairs(v, p1, conv, None) {
        None => empty,
        Some((found, end)) => {
            let p2 = skip_ws_e(v, end);
            if p2 == v.len() {
                match found {
                    Some(items) => items,
                    None => empty,
                }
            } else {
                empty
            }
        },
    }
}

/// Reads an attribute document tolerantly: the attribute set it denotes,
/// deduplicated by exact textual form with first occurrences kept in place,
/// or the empty set when it does not follow the form. The tolerance is a
/// kept design choice: callers probing malformed input expect a
/// deterministic "no attributes" outcome, not an error.
pub fn extract_attributes(attrs_str: &str, conv: MatchConvention) -> (r: Vec<Vec<u8>>)
    ensures
        r.deep_view() == spec_attribute_set(attrs_str.spec_bytes(), conv),
{
    let v = attrs_str.as_bytes_vec();
    let raw = extract_raw(&v, conv);
    dedup_attributes(&raw)
}

/// Whether a key's bytes spell `attributes`.
fn is_attributes_key_e(key: &Vec<u8>) -> (r: bool)
    ensures
        r == (key@ == attributes_lit()),
{
    let r = key.len() == 10 && key[0] == 0x61 && key[1] == 0x74 && key[2] == 0x74 && key[3] == 0x72
        && key[4] == 0x69 && key[5] == 0x62 && key[6] == 0x75 && key[7] == 0x74 && key[8] == 0x65
        && key[9] == 0x73;
    proof {
        if r {
            assert(key@ =~= attributes_lit());
        } else {
            assert(key@ != attributes_lit()) by {
                if key@ == attributes_lit() {
                    assert(forall|j: int| 0 <= j < 10 ==> key@[j] == attributes_lit()[j]);
                }
            }
        }
    }
    r
}

/// Whether a key's bytes spell `policy`.
fn is_policy_key_e(key: &Vec<u8>) -> (r: bool)
    ensures
        r == (key@ == policy_lit()),
{
    let r = key.len() == 6 && key[0] == 0x70 && key[1] == 0x6f && key[2] == 0x6c && key[3] == 0x69
        && key[4] == 0x63 && key[5] == 0x79;
    proof {
        if r {
            assert(key@ =~= policy_lit());
        } else {
            assert(key@ != policy_lit()) by {
                if key@ == policy_lit() {
                    assert(forall|j: int| 0 <= j < 6 ==> key@[j] == policy_lit()[j]);
                }
            }
        }
    }
    r
}

/// The top-level pairs of a fetched policy document from `pos` on: the first
/// `policy` key whose value is a quoted string yields the text; every other
/// pair is skipped.
pub open spec fn pol_pairs(v: Seq<u8>, pos: int, found: Option<Seq<u8>>) -> Option<
    (Option<Seq<u8>>, int),
>
    decreases v.len() - pos,
{
    if !(0 <= pos <= v.len()) {
        None
    } else {
        match q_str(v, pos) {
            None => None,
            Some((key, p1)) => {
                let pc = skip_ws(v, p1);
                if !(pc < v.len() && v[pc] == 0x3a) {
                    None
                } else {
                    let pv = skip_ws(v, pc + 1);
                    if pv > v.len() {
                        None
                    } else {
                        let stepped: Option<(Option<Seq<u8>>, int)> = if key == policy_lit()
                            && found is None && pv < v.len() && v[pv] == 0x22 {
                            match q_str(v, pv) {
                                None => None,
                                Some((text, p2)) => Some((Some(text), p2)),
                            }
                        } else {
                            match v_skip(v, pv) {
                                None => None,
                                Some(p2) => Some((found, p2)),
                            }
                        };
                        match stepped {
                            None => None,
                            Some((f2, p2)) => {
                                if pos < p2 <= v.len() {
                                    let ps = skip_ws(v, p2);
                                    if ps < v.len() && v[ps] == 0x7d {
                                        Some((f2, ps + 1))
                                    } else if ps < v.len() && v[ps] == 0x2c {
                                        let pn = skip_ws(v, ps + 1);
                                        if pn <= v.len() {
                                            pol_pairs(v, pn, f2)
                                        } else {
                                            None
                                        }
                                    } else {
                                        None
                                    }
                                } else {
                                    None
                                }
                            },
                        }
                    }
                }
            },
        }
    }
}

/// The policy text a fetched policy document carries: the string value of
/// its first `policy` key, with other keys skipped; a document without one
/// carries nothing.
pub open spec fn spec_policy_field(v: Seq<u8>) -> Option<Seq<u8>> {
    let p0 = skip_ws(v, 0);
    if !(p0 < v.len() && v[p0] == 0x7b) {
        None
    } else {
        let p1 = skip_ws(v, p0 + 1);
        if p1 < v.len() && v[p1] == 0x7d {
            None
        } else if p1 > v.len() {
            None
        } else {
            match pol_pairs(v, p1, None) {
                None => None,
                Some((found, end)) => if 0 <= end <= v.len() && skip_ws(v, end) == v.len() {
                    found
                } else {
                    None
                },
            }
        }
    }
}

fn e_pol_pairs(v: &Vec<u8>, pos: usize, found: Option<Vec<u8>>) -> (r: Option<
    (Option<Vec<u8>>, usize),
>)
    requires
        pos <= v.len(),
    ensures
        ({
            let sfound = match found {
                Some(text) => Some(text@),
                None => None::<Seq<u8>>,
            };
            match r {
                Some((f, p)) => {
                    &&& pos <= p <= v.len()
                    &&& match f {
                        Some(text) => pol_pairs(v@, pos as int, sfound) == Some(
                            (Some(text@), p as int),
                        ),
                        None => pol_pairs(v@, pos as int, sfound) == Some(
                            (None::<Seq<u8>>, p as int),
                        ),
                    }
                },
                None => pol_pairs(v@, pos as int, sfound) is None,
            }
        }),
    decreases v.len() - pos,
{
    match e_q_str(v, pos) {
        None => None,
        Some((key, p1)) => {
            let pc = skip_ws_e(v, p1);
            if !(pc < v.len() && v[pc] == 0x3a) {
                return None;
            }
            let pv = skip_ws_e(v, pc + 1);
            let take_here = is_policy_key_e(&key) && found.is_none() && pv < v.len() && v[pv]
                == 0x22;
            let stepped: Option<(Option<Vec<u8>>, usize)> = if take_here {
                match e_q_str(v, pv) {
                    None => None,
                    Some((text, p2)) => Some((Some(text), p2)),
                }
            } else {
                match e_v_skip(v, pv) {
                    None => None,
                    Some(p2) => Some((found, p2)),
                }
            };
            match stepped {
                None => None,
                Some((f2, p2)) => {
                    let ps = skip_ws_e(v, p2);
                    if ps < v.len() && v[ps] == 0x7d {
                        Some((f2, ps + 1))
                    } else if ps < v.len() && v[ps] == 0x2c {
                        let pn = skip_ws_e(v, ps + 1);
                        e_pol_pairs(v, pn, f2)
                    } else {
                        None
                    }
                },
            }
        },
    }
}

/// Reads the policy text out of a fetched policy document: the string value
/// of its first `policy` key.
pub fn extract_policy_field(doc: &str) -> (r: Option<Vec<u8>>)
    ensures
        match r {
            Some(b) => spec_policy_field(doc.spec_bytes()) == Some(b@),
            None => spec_policy_field(doc.spec_bytes()) is None,
        },
{
    let v = doc.as_bytes_vec();
    let p0 = skip_ws_e(&v, 0);
    if !(p0 < v.len() && v[p0] == 0x7b) {
        return None;
    }
    let p1 = skip_ws_e(&v, p0 + 1);
    if p1 < v.len() && v[p1] == 0x7d {
        return None;
    }
    match e_pol_pairs(&v, p1, None) {
        None => None,
        Some((found, end)) => {
            let p2 = skip_ws_e(&v, end);
            if p2 == v.len() {
                found
            } else {
                None
            }
        },
    }
}

} // verus!
