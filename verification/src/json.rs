//! The structured policy dialect: a leaf is `{"ATTR": {}}`; an internal node
//! is `{"threshold": k, "children": [ node, ... ]}`. Whitespace may stand
//! between tokens; quoted names carry no escapes.

use vstd::prelude::*;
use crate::scan::{
    skip_ws,
    str_end,
    dig_end,
    digits_val,
    skip_ws_e,
    str_end_e,
    dig_end_e,
    digits_val_e,
    subvec,
};
use crate::tree::{PolicyParseError, SpecPolicy, PolicyTree, views_of, lemma_views_of_len};
use crate::human::{PStep, LStep, step_agrees, list_agrees};

verus! {

/// The bytes of the key `threshold`.
pub open spec fn threshold_lit() -> Seq<u8> {
    seq![0x74u8, 0x68u8, 0x72u8, 0x65u8, 0x73u8, 0x68u8, 0x6fu8, 0x6cu8, 0x64u8]
}

/// The bytes of the key `children`.
pub open spec fn children_lit() -> Seq<u8> {
    seq![0x63u8, 0x68u8, 0x69u8, 0x6cu8, 0x64u8, 0x72u8, 0x65u8, 0x6eu8]
}

/// Whether `[lo, hi)` spells `threshold`.
pub fn is_threshold_key_e(v: &Vec<u8>, lo: usize, hi: usize) -> (r: bool)
    requires
        lo <= hi <= v.len(),
    ensures
        r == (v@.subrange(lo as int, hi as int) == threshold_lit()),
{
    if hi - lo != 9 {
        proof {
            assert(v@.subrange(lo as int, hi as int).len() != threshold_lit().len());
        }
        return false;
    }
    let r = v[lo] == 0x74 && v[lo + 1] == 0x68 && v[lo + 2] == 0x72 && v[lo + 3] == 0x65 && v[lo
        + 4] == 0x73 && v[lo + 5] == 0x68 && v[lo + 6] == 0x6f && v[lo + 7] == 0x6c && v[lo + 8]
        == 0x64;
    proof {
        if r {
            assert(v@.subrange(lo as int, hi as int) =~= threshold_lit());
        } else {
            assert(v@.subrange(lo as int, hi as int) != threshold_lit()) by {
                if v@.subrange(lo as int, hi as int) == threshold_lit() {
                    assert(forall|j: int|
                        0 <= j < 9 ==> v@.subrange(lo as int, hi as int)[j] == threshold_lit()[j]);
                }
            }
        }
    }
    r
}

/// Whether `[lo, hi)` spells `children`.
pub fn is_children_key_e(v: &Vec<u8>, lo: usize, hi: usize) -> (r: bool)
    requires
        lo <= hi <= v.len(),
    ensures
        r == (v@.subrange(lo as int, hi as int) == children_lit()),
{
    if hi - lo != 8 {
        proof {
            assert(v@.subrange(lo as int, hi as int).len() != children_lit().len());
        }
        return false;
    }
    let r = v[lo] == 0x63 && v[lo + 1] == 0x68 && v[lo + 2] == 0x69 && v[lo + 3] == 0x6c && v[lo
        + 4] == 0x64 && v[lo + 5] == 0x72 && v[lo + 6] == 0x65 && v[lo + 7] == 0x6e;
    proof {
        if r {
            assert(v@.subrange(lo as int, hi as int) =~= children_lit());
        } else {
            assert(v@.subrange(lo as int, hi as int) != children_lit()) by {
                if v@.subrange(lo as int, hi as int) == children_lit() {
                    assert(forall|j: int|
                        0 <= j < 8 ==> v@.subrange(lo as int, hi as int)[j] == children_lit()[j]);
                }
            }
        }
    }
    r
}

/// One structured node: a leaf object or a threshold object.
pub open spec fn j_node(v: Seq<u8>, pos: int) -> PStep
    decreases v.len() - pos, 1int,
{
    if !(0 <= pos <= v.len()) {
        PStep::Fail(PolicyParseError::Malformed)
    } else {
        let p0 = skip_ws(v, pos);
        if !(p0 < v.len() && v[p0] == 0x7b) {
            PStep::Fail(PolicyParseError::Malformed)
        } else {
            let p1 = skip_ws(v, p0 + 1);
            if !(p1 < v.len() && v[p1] == 0x22) {
                PStep::Fail(PolicyParseError::Malformed)
            } else {
                let lo = p1 + 1;
                let hi = str_end(v, lo);
                if !(hi < v.len() && v[hi] == 0x22) {
                    PStep::Fail(PolicyParseError::Malformed)
                } else {
                    let p2 = skip_ws(v, hi + 1);
                    if !(p2 < v.len() && v[p2] == 0x3a) {
                        PStep::Fail(PolicyParseError::Malformed)
                    } else {
                        let p3 = skip_ws(v, p2 + 1);
                        if v.subrange(lo, hi) == threshold_lit() {
                            j_threshold_tail(v, pos, p3)
                        } else {
                            j_leaf_tail(v, p3, v.subrange(lo, hi))
                        }
                    }
                }
            }
        }
    }
}

/// The rest of a leaf object after the key: an empty object value and the
/// closing brace.
pub open spec fn j_leaf_tail(v: Seq<u8>, p3: int, name: Seq<u8>) -> PStep {
    if !(0 <= p3 <= v.len()) {
        PStep::Fail(PolicyParseError::Malformed)
    } else if !(p3 < v.len() && v[p3] == 0x7b) {
        PStep::Fail(PolicyParseError::Malformed)
    } else {
        let p4 = skip_ws(v, p3 + 1);
        if !(p4 < v.len() && v[p4] == 0x7d) {
            PStep::Fail(PolicyParseError::Malformed)
        } else {
            let p5 = skip_ws(v, p4 + 1);
            if p5 < v.len() && v[p5] == 0x7d {
                PStep::Done(SpecPolicy::Leaf(name), p5 + 1)
            } else {
                PStep::Fail(PolicyParseError::Malformed)
            }
        }
    }
}

/// The rest of a threshold object after the key: the count, the `children`
/// key, the child list, and the closing brace. `pos` is where the node
/// started; the list must open strictly past it.
pub open spec fn j_threshold_tail(v: Seq<u8>, pos: int, p3: int) -> PStep
    decreases v.len() - pos, 0int,
{
    if !(0 <= pos <= v.len() && pos < p3 <= v.len()) {
        PStep::Fail(PolicyParseError::Malformed)
    } else {
        let de = dig_end(v, p3);
        if de == p3 || de > v.len() {
            PStep::Fail(PolicyParseError::Malformed)
        } else {
            let k = digits_val(v, p3, de);
            let p4 = skip_ws(v, de);
            if !(p4 < v.len() && v[p4] == 0x2c) {
                PStep::Fail(PolicyParseError::Malformed)
            } else {
                let p5 = skip_ws(v, p4 + 1);
                if !(p5 < v.len() && v[p5] == 0x22) {
                    PStep::Fail(PolicyParseError::Malformed)
                } else {
                    let clo = p5 + 1;
                    let chi = str_end(v, clo);
                    if !(chi < v.len() && v[chi] == 0x22 && v.subrange(clo, chi)
                        == children_lit()) {
                        PStep::Fail(PolicyParseError::Malformed)
                    } else {
                        let p6 = skip_ws(v, chi + 1);
                        if !(p6 < v.len() && v[p6] == 0x3a) {
                            PStep::Fail(PolicyParseError::Malformed)
                        } else {
                            let p7 = skip_ws(v, p6 + 1);
                            if !(p7 < v.len() && v[p7] == 0x5b) {
                                PStep::Fail(PolicyParseError::Malformed)
                            } else {
                                match j_more(v, p7 + 1, Seq::empty()) {
                                    LStep::Fail(e) => PStep::Fail(e),
                                    LStep::Done(cs, p8) => if 0 <= p8 <= v.len() {
                                        let p9 = skip_ws(v, p8);
                                        if p9 < v.len() && v[p9] == 0x7d {
                                            if 1 <= k <= cs.len() {
                                                PStep::Done(SpecPolicy::Threshold(k, cs), p9 + 1)
                                            } else {
                                                PStep::Fail(PolicyParseError::InvalidThreshold)
                                            }
                                        } else {
                                            PStep::Fail(PolicyParseError::Malformed)
                                        }
                                    } else {
                                        PStep::Fail(PolicyParseError::Malformed)
                                    },
                                }
                            }
                        }
                    }
                }
            }
        }
    }
}

/// The comma-separated nodes of a child list, up to and past the closing
/// bracket.
pub open spec fn j_more(v: Seq<u8>, pos: int, acc: Seq<SpecPolicy>) -> LStep
    decreases v.len() - pos, 3int,
{
    if !(0 <= pos <= v.len()) {
        LStep::Fail(PolicyParseError::Malformed)
    } else {
        match j_node(v, pos) {
            PStep::Fail(e) => LStep::Fail(e),
            PStep::Done(t, p1) => if pos <= p1 <= v.len() {
                let ps = skip_ws(v, p1);
                if ps < v.len() && v[ps] == 0x2c {
                    j_more(v, ps + 1, acc.push(t))
                } else if ps < v.len() && v[ps] == 0x5d {
                    LStep::Done(acc.push(t), ps + 1)
                } else {
                    LStep::Fail(PolicyParseError::Malformed)
                }
            } else {
                LStep::Fail(PolicyParseError::Malformed)
            },
        }
    }
}

/// The tree a structured-dialect text denotes, or the error it earns: the
/// whole text must be one node, with only whitespace around it.
pub open spec fn spec_parse_json(v: Seq<u8>) -> Result<SpecPolicy, PolicyParseError> {
    match j_node(v, 0) {
        PStep::Fail(e) => Err(e),
        PStep::Done(t, p) => if 0 <= p <= v.len() && skip_ws(v, p) == v.len() {
            Ok(t)
        } else {
            Err(PolicyParseError::Malformed)
        },
    }
}

pub(crate) fn e_json_node(v: &Vec<u8>, pos: usize) -> (r: Result<
    (PolicyTree, usize),
    PolicyParseError,
>)
    requires
        pos <= v.len(),
    ensures
        step_agrees(r, j_node(v@, pos as int), pos as int, v@.len() as int),
    decreases v.len() - pos, 1int,
{
    let p0 = skip_ws_e(v, pos);
    if !(p0 < v.len() && v[p0] == 0x7b) {
        return Err(PolicyParseError::Malformed);
    }
    let p1 = skip_ws_e(v, p0 + 1);
    if !(p1 < v.len() && v[p1] == 0x22) {
        return Err(PolicyParseError::Malformed);
    }
    let lo = p1 + 1;
    let hi = str_end_e(v, lo);
    if !(hi < v.len() && v[hi] == 0x22) {
        return Err(PolicyParseError::Malformed);
    }
    let p2 = skip_ws_e(v, hi + 1);
    if !(p2 < v.len() && v[p2] == 0x3a) {
        return Err(PolicyParseError::Malformed);
    }
    let p3 = skip_ws_e(v, p2 + 1);
    if is_threshold_key_e(v, lo, hi) {
        e_json_threshold_tail(v, pos, p3)
    } else {
        // leaf object: the value must be `{}`, then the node closes
        if !(p3 < v.len() && v[p3] == 0x7b) {
            return Err(PolicyParseError::Malformed);
        }
        let p4 = skip_ws_e(v, p3 + 1);
        if !(p4 < v.len() && v[p4] == 0x7d) {
            return Err(PolicyParseError::Malformed);
        }
        let p5 = skip_ws_e(v, p4 + 1);
        if p5 < v.len() && v[p5] == 0x7d {
            let name = subvec(v, lo, hi);
            Ok((PolicyTree::Leaf(name), p5 + 1))
        } else {
            Err(PolicyParseError::Malformed)
        }
    }
}

pub(crate) fn e_json_threshold_tail(v: &Vec<u8>, pos: usize, p3: usize) -> (r: Result<
    (PolicyTree, usize),
    PolicyParseError,
>)
    requires
        pos < p3 <= v.len(),
    ensures
        step_agrees(r, j_threshold_tail(v@, pos as int, p3 as int), pos as int, v@.len() as int),
    decreases v.len() - pos, 0int,
{
    let de = dig_end_e(v, p3);
    if de == p3 {
        return Err(PolicyParseError::Malformed);
    }
    let kopt = digits_val_e(v, p3, de);
    let p4 = skip_ws_e(v, de);
    if !(p4 < v.len() && v[p4] == 0x2c) {
        return Err(PolicyParseError::Malformed);
    }
    let p5 = skip_ws_e(v, p4 + 1);
    if !(p5 < v.len() && v[p5] == 0x22) {
        return Err(PolicyParseError::Malformed);
    }
    let clo = p5 + 1;
    let chi = str_end_e(v, clo);
    if !(chi < v.len() && v[chi] == 0x22) {
        return Err(PolicyParseError::Malformed);
    }
    if !is_children_key_e(v, clo, chi) {
        return Err(PolicyParseError::Malformed);
    }
    let p6 = skip_ws_e(v, chi + 1);
    if !(p6 < v.len() && v[p6] == 0x3a) {
        return Err(PolicyParseError::Malformed);
    }
    let p7 = skip_ws_e(v, p6 + 1);
    if !(p7 < v.len() && v[p7] == 0x5b) {
        return Err(PolicyParseError::Malformed);
    }
    proof {
        assert(views_of(Seq::<PolicyTree>::empty()) =~= Seq::<SpecPolicy>::empty());
    }
    match e_json_more(v, p7 + 1, Vec::new()) {
        Err(e) => Err(e),
        Ok((cs, p8)) => {
            let p9 = skip_ws_e(v, p8);
            if p9 < v.len() && v[p9] == 0x7d {
                proof {
                    lemma_views_of_len(cs@);
                }
                let n = cs.len();
                match kopt {
                    Some(k) => {
                        if 1 <= k && k <= n {
                            Ok((PolicyTree::Threshold(k, cs), p9 + 1))
                        } else {
                            Err(PolicyParseError::InvalidThreshold)
                        }
                    },
                    None => Err(PolicyParseError::InvalidThreshold),
                }
            } else {
                Err(PolicyParseError::Malformed)
            }
        },
    }
}

pub(crate) fn e_json_more(v: &Vec<u8>, pos: usize, acc: Vec<PolicyTree>) -> (r: Result<
    (Vec<PolicyTree>, usize),
    PolicyParseError,
>)
    requires
        pos <= v.len(),
    ensures
        list_agrees(r, j_more(v@, pos as int, views_of(acc@)), pos as int, v@.len() as int),
    decreases v.len() - pos, 3int,
{
    match e_json_node(v, pos) {
        Err(e) => Err(e),
        Ok((t, p1)) => {
            let ps = skip_ws_e(v, p1);
            let mut acc2 = acc;
            let ghost pre = acc2@;
            let ghost accv = views_of(acc2@);
            let ghost t0 = t.view();
            acc2.push(t);
            proof {
                crate::tree::lemma_views_of_push(pre, acc2@.last());
                assert(acc2@ == pre.push(acc2@.last()));
                assert(views_of(acc2@) == accv.push(t0));
            }
            if ps < v.len() && v[ps] == 0x2c {
                e_json_more(v, ps + 1, acc2)
            } else if ps < v.len() && v[ps] == 0x5d {
                Ok((acc2, ps + 1))
            } else {
                Err(PolicyParseError::Malformed)
            }
        },
    }
}

/// Parses a whole structured-dialect text.
pub(crate) fn parse_json_bytes(v: &Vec<u8>) -> (r: Result<PolicyTree, PolicyParseError>)
    ensures
        match r {
            Ok(t) => spec_parse_json(v@) == Ok::<SpecPolicy, PolicyParseError>(t.view()),
            Err(e) => spec_parse_json(v@) == Err::<SpecPolicy, PolicyParseError>(e),
        },
{
    match e_json_node(v, 0) {
        Err(e) => Err(e),
        Ok((t, p)) => {
            let q = skip_ws_e(v, p);
            if q == v.len() {
                Ok(t)
            } else {
                Err(PolicyParseError::Malformed)
            }
        },
    }
}

} // verus!
