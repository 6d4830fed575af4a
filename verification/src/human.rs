//! The human-readable policy dialect: an infix boolean expression over
//! predicate tokens, with `and`/`or` (any casing), parenthesised grouping,
//! and an explicit `k of { e, ... }` threshold form.
//!
//! An `and` chain of n terms denotes `Threshold(n, terms)`; an `or` chain
//! denotes `Threshold(1, terms)`; `and` binds tighter than `or`. The words
//! `and`, `or` and `of` are reserved and cannot stand as predicates.

use vstd::prelude::*;
use crate::scan::{
    skip_ws,
    token_end,
    lower,
    all_digits,
    digits_val,
    skip_ws_e,
    token_end_e,
    lower_e,
    all_digits_e,
    digits_val_e,
    subvec,
};
use crate::tree::{
    PolicyParseError,
    SpecPolicy,
    PolicyTree,
    views_of,
    lemma_views_of_len,
    lemma_views_of_push,
};

verus! {

/// The keyword `and`, in any casing, filling `[lo, hi)`.
pub open spec fn is_kw_and(v: Seq<u8>, lo: int, hi: int) -> bool {
    hi - lo == 3 && lower(v[lo]) == 0x61 && lower(v[lo + 1]) == 0x6e && lower(v[lo + 2]) == 0x64
}

/// The keyword `or`, in any casing, filling `[lo, hi)`.
pub open spec fn is_kw_or(v: Seq<u8>, lo: int, hi: int) -> bool {
    hi - lo == 2 && lower(v[lo]) == 0x6f && lower(v[lo + 1]) == 0x72
}

/// The keyword `of`, in any casing, filling `[lo, hi)`.
pub open spec fn is_kw_of(v: Seq<u8>, lo: int, hi: int) -> bool {
    hi - lo == 2 && lower(v[lo]) == 0x6f && lower(v[lo + 1]) == 0x66
}

/// Any reserved word of the dialect.
pub open spec fn is_keyword(v: Seq<u8>, lo: int, hi: int) -> bool {
    is_kw_and(v, lo, hi) || is_kw_or(v, lo, hi) || is_kw_of(v, lo, hi)
}

/// Whether the token after position `te` is the keyword `of`, which makes a
/// digit run the head of a `k of { ... }` form.
pub open spec fn is_threshold_head(v: Seq<u8>, te: int) -> bool {
    is_kw_of(v, skip_ws(v, te), token_end(v, skip_ws(v, te)))
}

/// An `or` chain of one tree is that tree; of more, a threshold-one node.
pub open spec fn or_node(cs: Seq<SpecPolicy>) -> SpecPolicy {
    if cs.len() == 1 {
        cs[0]
    } else {
        SpecPolicy::Threshold(1, cs)
    }
}

/// An `and` chain of one tree is that tree; of more, a node that asks for
/// every term.
pub open spec fn and_node(cs: Seq<SpecPolicy>) -> SpecPolicy {
    if cs.len() == 1 {
        cs[0]
    } else {
        SpecPolicy::Threshold(cs.len() as nat, cs)
    }
}

/// Outcome of one spec-level parsing step: a tree and the next position, or
/// the error the text earns.
pub enum PStep {
    Done(SpecPolicy, int),
    Fail(PolicyParseError),
}

/// Outcome of parsing a brace-enclosed argument list: the trees and the
/// position after the closing brace.
pub enum LStep {
    Done(Seq<SpecPolicy>, int),
    Fail(PolicyParseError),
}

/// An `or` chain: `and` chains separated by the keyword `or`.
pub open spec fn h_expr(v: Seq<u8>, pos: int) -> PStep
    decreases v.len() - pos, 5int,
{
    if !(0 <= pos <= v.len()) {
        PStep::Fail(PolicyParseError::Malformed)
    } else {
        match h_and(v, pos) {
            PStep::Fail(e) => PStep::Fail(e),
            PStep::Done(t, p1) => if pos <= p1 <= v.len() {
                h_or_more(v, p1, seq![t])
            } else {
                PStep::Fail(PolicyParseError::Malformed)
            },
        }
    }
}

/// The further `or` terms that follow an `and` chain.
pub open spec fn h_or_more(v: Seq<u8>, pos: int, acc: Seq<SpecPolicy>) -> PStep
    decreases v.len() - pos, 4int,
{
    if !(0 <= pos <= v.len()) {
        PStep::Fail(PolicyParseError::Malformed)
    } else {
        let pw = skip_ws(v, pos);
        let te = token_end(v, pw);
        if is_kw_or(v, pw, te) && te <= v.len() {
            match h_and(v, te) {
                PStep::Fail(e) => PStep::Fail(e),
                PStep::Done(t, p2) => if pos < p2 <= v.len() {
                    h_or_more(v, p2, acc.push(t))
                } else {
                    PStep::Fail(PolicyParseError::Malformed)
                },
            }
        } else {
            PStep::Done(or_node(acc), pos)
        }
    }
}

/// An `and` chain: atoms separated by the keyword `and`.
pub open spec fn h_and(v: Seq<u8>, pos: int) -> PStep
    decreases v.len() - pos, 3int,
{
    if !(0 <= pos <= v.len()) {
        PStep::Fail(PolicyParseError::Malformed)
    } else {
        match h_atom(v, pos) {
            PStep::Fail(e) => PStep::Fail(e),
            PStep::Done(t, p1) => if pos <= p1 <= v.len() {
                h_and_more(v, p1, seq![t])
            } else {
                PStep::Fail(PolicyParseError::Malformed)
            },
        }
    }
}

/// The further `and` terms that follow an atom.
pub open spec fn h_and_more(v: Seq<u8>, pos: int, acc: Seq<SpecPolicy>) -> PStep
    decreases v.len() - pos, 2int,
{
    if !(0 <= pos <= v.len()) {
        PStep::Fail(PolicyParseError::Malformed)
    } else {
        let pw = skip_ws(v, pos);
        let te = token_end(v, pw);
        if is_kw_and(v, pw, te) && te <= v.len() {
            match h_atom(v, te) {
                PStep::Fail(e) => PStep::Fail(e),
                PStep::Done(t, p2) => if pos < p2 <= v.len() {
                    h_and_more(v, p2, acc.push(t))
                } else {
                    PStep::Fail(PolicyParseError::Malformed)
                },
            }
        } else {
            PStep::Done(and_node(acc), pos)
        }
    }
}

/// One atom: a parenthesised expression, a `k of { ... }` threshold form, or
/// a predicate token.
pub open spec fn h_atom(v: Seq<u8>, pos: int) -> PStep
    decreases v.len() - pos, 1int,
{
    if !(0 <= pos <= v.len()) {
        PStep::Fail(PolicyParseError::Malformed)
    } else {
        let pw = skip_ws(v, pos);
        if pw < v.len() && v[pw] == 0x28 {
            match h_expr(v, pw + 1) {
                PStep::Fail(e) => PStep::Fail(e),
                PStep::Done(t, p1) => if 0 <= p1 <= v.len() {
                    let pc = skip_ws(v, p1);
                    if pc < v.len() && v[pc] == 0x29 {
                        PStep::Done(t, pc + 1)
                    } else {
                        PStep::Fail(PolicyParseError::Malformed)
                    }
                } else {
                    PStep::Fail(PolicyParseError::Malformed)
                },
            }
        } else {
            let te = token_end(v, pw);
            if te == pw || te > v.len() {
                PStep::Fail(PolicyParseError::Malformed)
            } else if is_keyword(v, pw, te) {
                PStep::Fail(PolicyParseError::Malformed)
            } else if all_digits(v, pw, te) && is_threshold_head(v, te) {
                let k = digits_val(v, pw, te);
                let te2 = token_end(v, skip_ws(v, te));
                let pb = skip_ws(v, te2);
                if pb < v.len() && v[pb] == 0x7b {
                    match h_args(v, pb + 1, Seq::empty()) {
                        LStep::Fail(e) => PStep::Fail(e),
                        LStep::Done(cs, p3) => if 1 <= k <= cs.len() {
                            PStep::Done(SpecPolicy::Threshold(k, cs), p3)
                        } else {
                            PStep::Fail(PolicyParseError::InvalidThreshold)
                        },
                    }
                } else {
                    PStep::Fail(PolicyParseError::Malformed)
                }
            } else {
                PStep::Done(SpecPolicy::Leaf(v.subrange(pw, te)), te)
            }
        }
    }
}

/// The comma-separated expressions of a `k of { ... }` form, up to and past
/// the closing brace.
pub open spec fn h_args(v: Seq<u8>, pos: int, acc: Seq<SpecPolicy>) -> LStep
    decreases v.len() - pos, 6int,
{
    if !(0 <= pos <= v.len()) {
        LStep::Fail(PolicyParseError::Malformed)
    } else {
        match h_expr(v, pos) {
            PStep::Fail(e) => LStep::Fail(e),
            PStep::Done(t, p1) => if pos <= p1 <= v.len() {
                let ps = skip_ws(v, p1);
                if ps < v.len() && v[ps] == 0x2c {
                    h_args(v, ps + 1, acc.push(t))
                } else if ps < v.len() && v[ps] == 0x7d {
                    LStep::Done(acc.push(t), ps + 1)
                } else {
                    LStep::Fail(PolicyParseError::Malformed)
                }
            } else {
                LStep::Fail(PolicyParseError::Malformed)
            },
        }
    }
}

/// The tree a human-dialect text denotes, or the error it earns: the whole
/// text must be one expression, with only whitespace around it.
pub open spec fn spec_parse_human(v: Seq<u8>) -> Result<SpecPolicy, PolicyParseError> {
    match h_expr(v, 0) {
        PStep::Fail(e) => Err(e),
        PStep::Done(t, p) => if 0 <= p <= v.len() && skip_ws(v, p) == v.len() {
            Ok(t)
        } else {
            Err(PolicyParseError::Malformed)
        },
    }
}

/// The exec result of a step agrees with the spec-level step at `pos`.
pub open spec fn step_agrees(
    r: Result<(PolicyTree, usize), PolicyParseError>,
    s: PStep,
    pos: int,
    len: int,
) -> bool {
    match r {
        Ok((t, p)) => s == PStep::Done(t.view(), p as int) && pos <= p as int <= len,
        Err(e) => s == PStep::Fail(e),
    }
}

/// The exec result of an argument list agrees with the spec-level step.
pub open spec fn list_agrees(
    r: Result<(Vec<PolicyTree>, usize), PolicyParseError>,
    s: LStep,
    pos: int,
    len: int,
) -> bool {
    match r {
        Ok((cs, p)) => s == LStep::Done(views_of(cs@), p as int) && pos <= p as int <= len,
        Err(e) => s == LStep::Fail(e),
    }
}

pub fn is_kw_and_e(v: &Vec<u8>, lo: usize, hi: usize) -> (r: bool)
    requires
        lo <= hi <= v.len(),
    ensures
        r == is_kw_and(v@, lo as int, hi as int),
{
    hi - lo == 3 && lower_e(v[lo]) == 0x61 && lower_e(v[lo + 1]) == 0x6e && lower_e(v[lo + 2])
        == 0x64
}

pub fn is_kw_or_e(v: &Vec<u8>, lo: usize, hi: usize) -> (r: bool)
    requires
        lo <= hi <= v.len(),
    ensures
        r == is_kw_or(v@, lo as int, hi as int),
{
    hi - lo == 2 && lower_e(v[lo]) == 0x6f && lower_e(v[lo + 1]) == 0x72
}

pub fn is_kw_of_e(v: &Vec<u8>, lo: usize, hi: usize) -> (r: bool)
    requires
        lo <= hi <= v.len(),
    ensures
        r == is_kw_of(v@, lo as int, hi as int),
{
    hi - lo == 2 && lower_e(v[lo]) == 0x6f && lower_e(v[lo + 1]) == 0x66
}

pub fn is_keyword_e(v: &Vec<u8>, lo: usize, hi: usize) -> (r: bool)
    requires
        lo <= hi <= v.len(),
    ensures
        r == is_keyword(v@, lo as int, hi as int),
{
    is_kw_and_e(v, lo, hi) || is_kw_or_e(v, lo, hi) || is_kw_of_e(v, lo, hi)
}

/// A chain of `or` terms as one tree.
fn combine_or(acc: Vec<PolicyTree>) -> (r: PolicyTree)
    requires
        acc@.len() >= 1,
    ensures
        r.view() == or_node(views_of(acc@)),
{
    proof {
        lemma_views_of_len(acc@);
    }
    if acc.len() == 1 {
        let mut a = acc;
        let t = a.pop().unwrap();
        t
    } else {
        PolicyTree::Threshold(1, acc)
    }
}

/// A chain of `and` terms as one tree.
fn combine_and(acc: Vec<PolicyTree>) -> (r: PolicyTree)
    requires
        acc@.len() >= 1,
    ensures
        r.view() == and_node(views_of(acc@)),
{
    proof {
        lemma_views_of_len(acc@);
    }
    if acc.len() == 1 {
        let mut a = acc;
        let t = a.pop().unwrap();
        t
    } else {
        let k = acc.len();
        PolicyTree::Threshold(k, acc)
    }
}

pub(crate) fn e_expr(v: &Vec<u8>, pos: usize) -> (r: Result<
    (PolicyTree, usize),
    PolicyParseError,
>)
    requires
        pos <= v.len(),
    ensures
        step_agrees(r, h_expr(v@, pos as int), pos as int, v@.len() as int),
    decreases v.len() - pos, 5int,
{
    match e_and(v, pos) {
        Err(e) => Err(e),
        Ok((t, p1)) => {
            let mut acc: Vec<PolicyTree> = Vec::new();
            let ghost t0 = t.view();
            acc.push(t);
            proof {
                lemma_views_of_len(acc@);
                assert(views_of(acc@) =~= seq![t0]);
            }
            e_or_more(v, p1, acc)
        },
    }
}

pub(crate) fn e_or_more(v: &Vec<u8>, pos: usize, acc: Vec<PolicyTree>) -> (r: Result<
    (PolicyTree, usize),
    PolicyParseError,
>)
    requires
        pos <= v.len(),
        acc@.len() >= 1,
    ensures
        step_agrees(r, h_or_more(v@, pos as int, views_of(acc@)), pos as int, v@.len() as int),
    decreases v.len() - pos, 4int,
{
    let pw = skip_ws_e(v, pos);
    let te = token_end_e(v, pw);
    if is_kw_or_e(v, pw, te) {
        match e_and(v, te) {
            Err(e) => Err(e),
            Ok((t, p2)) => {
                let mut acc2 = acc;
                let ghost pre = acc2@;
                let ghost accv = views_of(acc2@);
                let ghost t0 = t.view();
                acc2.push(t);
                proof {
                    lemma_views_of_push(pre, acc2@.last());
                    assert(acc2@ == pre.push(acc2@.last()));
                    assert(views_of(acc2@) == accv.push(t0));
                }
                e_or_more(v, p2, acc2)
            },
        }
    } else {
        Ok((combine_or(acc), pos))
    }
}

pub(crate) fn e_and(v: &Vec<u8>, pos: usize) -> (r: Result<(PolicyTree, usize), PolicyParseError>)
    requires
        pos <= v.len(),
    ensures
        step_agrees(r, h_and(v@, pos as int), pos as int, v@.len() as int),
    decreases v.len() - pos, 3int,
{
    match e_atom(v, pos) {
        Err(e) => Err(e),
        Ok((t, p1)) => {
            let mut acc: Vec<PolicyTree> = Vec::new();
            let ghost t0 = t.view();
            acc.push(t);
            proof {
                lemma_views_of_len(acc@);
                assert(views_of(acc@) =~= seq![t0]);
            }
            e_and_more(v, p1, acc)
        },
    }
}

pub(crate) fn e_and_more(v: &Vec<u8>, pos: usize, acc: Vec<PolicyTree>) -> (r: Result<
    (PolicyTree, usize),
    PolicyParseError,
>)
    requires
        pos <= v.len(),
        acc@.len() >= 1,
    ensures
        step_agrees(r, h_and_more(v@, pos as int, views_of(acc@)), pos as int, v@.len() as int),
    decreases v.len() - pos, 2int,
{
    let pw = skip_ws_e(v, pos);
    let te = token_end_e(v, pw);
    if is_kw_and_e(v, pw, te) {
        match e_atom(v, te) {
            Err(e) => Err(e),
            Ok((t, p2)) => {
                let mut acc2 = acc;
                let ghost pre = acc2@;
                let ghost accv = views_of(acc2@);
                let ghost t0 = t.view();
                acc2.push(t);
                proof {
                    lemma_views_of_push(pre, acc2@.last());
                    assert(acc2@ == pre.push(acc2@.last()));
                    assert(views_of(acc2@) == accv.push(t0));
                }
                e_and_more(v, p2, acc2)
            },
        }
    } else {
        Ok((combine_and(acc), pos))
    }
}

pub(crate) fn e_atom(v: &Vec<u8>, pos: usize) -> (r: Result<(PolicyTree, usize), PolicyParseError>)
    requires
        pos <= v.len(),
    ensures
        step_agrees(r, h_atom(v@, pos as int), pos as int, v@.len() as int),
    decreases v.len() - pos, 1int,
{
    let pw = skip_ws_e(v, pos);
    if pw < v.len() && v[pw] == 0x28 {
        match e_expr(v, pw + 1) {
            Err(e) => Err(e),
            Ok((t, p1)) => {
                let pc = skip_ws_e(v, p1);
                if pc < v.len() && v[pc] == 0x29 {
                    Ok((t, pc + 1))
                } else {
                    Err(PolicyParseError::Malformed)
                }
            },
        }
    } else {
        let te = token_end_e(v, pw);
        if te == pw {
            return Err(PolicyParseError::Malformed);
        }
        if is_keyword_e(v, pw, te) {
            return Err(PolicyParseError::Malformed);
        }
        let ad = all_digits_e(v, pw, te);
        let pw2 = skip_ws_e(v, te);
        let te2 = token_end_e(v, pw2);
        if ad && is_kw_of_e(v, pw2, te2) {
            let kopt = digits_val_e(v, pw, te);
            let pb = skip_ws_e(v, te2);
            if pb < v.len() && v[pb] == 0x7b {
                proof {
                    assert(views_of(Seq::<PolicyTree>::empty()) =~= Seq::<SpecPolicy>::empty());
                }
                match e_args(v, pb + 1, Vec::new()) {
                    Err(e) => Err(e),
                    Ok((cs, p3)) => {
                        proof {
                            lemma_views_of_len(cs@);
                        }
                        let n = cs.len();
                        match kopt {
                            Some(k) => {
                                if 1 <= k && k <= n {
                                    Ok((PolicyTree::Threshold(k, cs), p3))
                                } else {
                                    Err(PolicyParseError::InvalidThreshold)
                                }
                            },
                            None => Err(PolicyParseError::InvalidThreshold),
                        }
                    },
                }
            } else {
                Err(PolicyParseError::Malformed)
            }
        } else {
            let t = subvec(v, pw, te);
            Ok((PolicyTree::Leaf(t), te))
        }
    }
}

pub(crate) fn e_args(v: &Vec<u8>, pos: usize, acc: Vec<PolicyTree>) -> (r: Result<
    (Vec<PolicyTree>, usize),
    PolicyParseError,
>)
    requires
        pos <= v.len(),
    ensures
        list_agrees(r, h_args(v@, pos as int, views_of(acc@)), pos as int, v@.len() as int),
    decreases v.len() - pos, 6int,
{
    match e_expr(v, pos) {
        Err(e) => Err(e),
        Ok((t, p1)) => {
            let ps = skip_ws_e(v, p1);
            let mut acc2 = acc;
            let ghost pre = acc2@;
            let ghost accv = views_of(acc2@);
            let ghost t0 = t.view();
            acc2.push(t);
            proof {
                lemma_views_of_push(pre, acc2@.last());
                assert(acc2@ == pre.push(acc2@.last()));
                assert(views_of(acc2@) == accv.push(t0));
            }
            if ps < v.len() && v[ps] == 0x2c {
                e_args(v, ps + 1, acc2)
            } else if ps < v.len() && v[ps] == 0x7d {
                Ok((acc2, ps + 1))
            } else {
                Err(PolicyParseError::Malformed)
            }
        },
    }
}

/// Parses a whole human-dialect text.
pub(crate) fn parse_human_bytes(v: &Vec<u8>) -> (r: Result<PolicyTree, PolicyParseError>)
    ensures
        match r {
            Ok(t) => spec_parse_human(v@) == Ok::<SpecPolicy, PolicyParseError>(t.view()),
            Err(e) => spec_parse_human(v@) == Err::<SpecPolicy, PolicyParseError>(e),
        },
{
    match e_expr(v, 0) {
        Err(e) => Err(e),
        Ok((t, p)) => {
            let q = skip_ws_e(v, p);
            if q == v.len() {
                Ok(t)
            } else {
                Err(PolicyParseError::Malformed)
            }
        },
    }
}

} // verus!
