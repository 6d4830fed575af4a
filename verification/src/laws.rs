//! The laws that relate the library's functions: for each dialect,
//! re-parsing the canonical text of a tree that dialect can write yields the
//! very same tree, so its satisfaction behaviour is unchanged against every
//! attribute set; and every tree the parser accepts is well-formed and
//! writable by its own dialect.

use vstd::prelude::*;
use crate::scan::{
    is_ws,
    is_digit,
    is_token_byte,
    is_str_byte,
    skip_ws,
    token_end,
    str_end,
    dig_end,
    lower,
    digit_of,
    all_digits,
    digits_val,
    lemma_skip_ws_exact,
    lemma_token_end_exact,
    lemma_str_end_exact,
    lemma_dig_end_exact,
    lemma_str_count_le,
};
use crate::tree::{PolicyDialect, PolicyParseError, SpecPolicy, wf, wf_all};
use crate::json::{j_node, j_leaf_tail, j_threshold_tail, j_more, threshold_lit, children_lit, spec_parse_json};
use crate::parser::spec_parse;
use crate::human::{
    is_kw_and,
    is_kw_or,
    is_kw_of,
    is_keyword,
    is_threshold_head,
    or_node,
    and_node,
    PStep,
    LStep,
    h_expr,
    h_or_more,
    h_and,
    h_and_more,
    h_atom,
    h_args,
    spec_parse_human,
};
use crate::serial::{
    dec_of,
    of_open,
    ser,
    ser_list,
    is_kw_seq,
    writable,
    writable_list,
    ser_json,
    ser_json_list,
    writable_json,
    writable_json_list,
};

verus! {

/// What may stand right after a serialized tree: the end of the text, the
/// separator of a child list, or its closing brace.
pub open spec fn follows_ok(v: Seq<u8>, q: int) -> bool {
    q == v.len() || (0 <= q < v.len() && (v[q] == 0x2c || v[q] == 0x7d))
}

/// Decimal digit strings are nonempty runs of digits.
proof fn lemma_dec_of_digits(n: nat)
    ensures
        dec_of(n).len() >= 1,
        forall|j: int| 0 <= j < dec_of(n).len() ==> is_digit(#[trigger] dec_of(n)[j]),
    decreases n,
{
    if n >= 10 {
        lemma_dec_of_digits(n / 10);
    }
}

/// Reading back the decimal digits of `n` gives `n`.
proof fn lemma_dec_val(v: Seq<u8>, s: int, n: nat)
    requires
        0 <= s,
        s + dec_of(n).len() <= v.len(),
        forall|i: int| 0 <= i < dec_of(n).len() ==> v[s + i] == #[trigger] dec_of(n)[i],
    ensures
        digits_val(v, s, s + dec_of(n).len()) == n,
    decreases n,
{
    lemma_dec_of_digits(n);
    if n < 10 {
        assert(digits_val(v, s, s) == 0);
        assert(v[s] == dec_of(n)[0]);
        assert(digit_of(v[s]) == n);
    } else {
        let pre = dec_of(n / 10);
        let e = s + dec_of(n).len();
        assert(dec_of(n) == pre.push((0x30 + n % 10) as u8));
        assert forall|i: int| 0 <= i < pre.len() implies v[s + i] == #[trigger] pre[i] by {
            assert(dec_of(n)[i] == pre[i]);
        }
        lemma_dec_val(v, s, n / 10);
        assert(v[e - 1] == dec_of(n)[dec_of(n).len() - 1]);
        assert(digit_of(v[e - 1]) == n % 10);
        assert(digits_val(v, s, e) == digits_val(v, s, e - 1) * 10 + digit_of(v[e - 1]));
    }
}

/// The text of a writable tree is nonempty and opens with a token byte.
proof fn lemma_ser_first(t: SpecPolicy)
    requires
        writable(t),
    ensures
        ser(t).len() >= 1,
        is_token_byte(ser(t)[0]),
{
    match t {
        SpecPolicy::Leaf(p) => {},
        SpecPolicy::Threshold(k, cs) => {
            lemma_dec_of_digits(k);
            assert(ser(t)[0] == dec_of(k)[0]);
        },
    }
}

/// Reserved words written at `[lo, hi)` are exactly reserved byte strings.
proof fn lemma_keyword_bridge(v: Seq<u8>, lo: int, hi: int, p: Seq<u8>)
    requires
        0 <= lo <= hi <= v.len(),
        p.len() == hi - lo,
        forall|i: int| 0 <= i < p.len() ==> v[lo + i] == #[trigger] p[i],
    ensures
        is_keyword(v, lo, hi) == is_kw_seq(p),
{
    if p.len() == 2 {
        assert(v[lo] == p[0] && v[lo + 1] == p[1]);
    }
    if p.len() == 3 {
        assert(v[lo] == p[0] && v[lo + 1] == p[1] && v[lo + 2] == p[2]);
    }
}

/// Token bytes are not whitespace and open no parenthesis.
proof fn lemma_token_byte_shape(b: u8)
    requires
        is_token_byte(b),
    ensures
        !is_ws(b),
        b != 0x28,
        b != 0x2c,
        b != 0x7d,
        b != 0x7b,
        b != 0x29,
{
}

/// An atom of the grammar reads the text of a writable tree back as that
/// tree, ending right after it.
#[verifier::rlimit(60)]
proof fn lemma_atom_rt(v: Seq<u8>, pos: int, t: SpecPolicy)
    requires
        writable(t),
        0 <= pos <= v.len(),
        skip_ws(v, pos) + ser(t).len() <= v.len(),
        forall|i: int| 0 <= i < ser(t).len() ==> v[skip_ws(v, pos) + i] == #[trigger] ser(t)[i],
        follows_ok(v, skip_ws(v, pos) + ser(t).len()),
    ensures
        h_atom(v, pos) == PStep::Done(t, skip_ws(v, pos) + ser(t).len()),
    decreases t, 0nat,
{
    let s = skip_ws(v, pos);
    let e = s + ser(t).len();
    lemma_ser_first(t);
    lemma_token_byte_shape(v[s]);
    match t {
        SpecPolicy::Leaf(p) => {
            assert forall|j: int| s <= j < e implies is_token_byte(#[trigger] v[j]) by {
                let i = j - s;
                assert(v[s + i] == ser(t)[i]);
                assert(is_token_byte(p[i]));
            }
            assert forall|i: int| 0 <= i < p.len() implies v[s + i] == #[trigger] p[i] by {
                assert(v[s + i] == ser(t)[i]);
            }
            if e < v.len() {
                lemma_token_byte_shape(v[s]);
                assert(!is_token_byte(v[e]));
            }
            lemma_token_end_exact(v, s, e);
            lemma_keyword_bridge(v, s, e, p);
            assert forall|i: int| 0 <= i < e - s implies v.subrange(s, e)[i] == p[i] by {
                assert(v[s + i] == p[i]);
            }
            assert(v.subrange(s, e) =~= p);
            if all_digits(v, s, e) {
                if e < v.len() {
                    lemma_skip_ws_exact(v, e, e);
                    lemma_token_end_exact(v, e, e);
                } else {
                    assert(skip_ws(v, e) == e);
                    assert(token_end(v, e) == e);
                }
                assert(!is_kw_of(v, skip_ws(v, e), token_end(v, skip_ws(v, e))));
                assert(!is_threshold_head(v, e));
            }
            assert(h_atom(v, pos) == PStep::Done(SpecPolicy::Leaf(p), e));
        },
        SpecPolicy::Threshold(k, cs) => {
            let a = dec_of(k);
            let b = of_open();
            let c = ser_list(cs);
            let dl = a.len() as int;
            let ll = c.len() as int;
            lemma_dec_of_digits(k);
            assert(ser(t) == a + b + c + seq![0x7du8]);
            assert(ser(t).len() == dl + 5 + ll + 1);
            assert forall|i: int| 0 <= i < dl implies v[s + i] == #[trigger] a[i] by {
                assert(v[s + i] == ser(t)[i]);
                assert(ser(t)[i] == a[i]);
            }
            assert(v[s + dl] == 0x20 && v[s + dl + 1] == 0x6f && v[s + dl + 2] == 0x66 && v[s + dl
                + 3] == 0x20 && v[s + dl + 4] == 0x7b) by {
                assert(v[s + (dl)] == ser(t)[dl] && ser(t)[dl] == b[0]);
                assert(v[s + (dl + 1)] == ser(t)[dl + 1] && ser(t)[dl + 1] == b[1]);
                assert(v[s + (dl + 2)] == ser(t)[dl + 2] && ser(t)[dl + 2] == b[2]);
                assert(v[s + (dl + 3)] == ser(t)[dl + 3] && ser(t)[dl + 3] == b[3]);
                assert(v[s + (dl + 4)] == ser(t)[dl + 4] && ser(t)[dl + 4] == b[4]);
            }
            assert forall|i: int| 0 <= i < ll implies v[s + dl + 5 + i] == #[trigger] c[i] by {
                assert(v[s + (dl + 5 + i)] == ser(t)[dl + 5 + i]);
                assert(ser(t)[dl + 5 + i] == c[i]);
            }
            assert(v[s + dl + 5 + ll] == 0x7d) by {
                assert(v[s + (dl + 5 + ll)] == ser(t)[dl + 5 + ll]);
                assert(ser(t)[dl + 5 + ll] == 0x7d);
            }
            // the digit run of `k` is the whole leading token
            assert forall|j: int| s <= j < s + dl implies is_token_byte(#[trigger] v[j]) by {
                let i = j - s;
                assert(is_digit(a[i]));
                assert(v[s + i] == a[i]);
            }
            assert(!is_token_byte(0x20));
            lemma_token_end_exact(v, s, s + dl);
            let te = token_end(v, s);
            assert(te == s + dl);
            // digits spell no reserved word
            assert(v[s + 0] == a[0] && is_digit(a[0]));
            assert(is_digit(v[s]) && lower(v[s]) == v[s]);
            assert(!is_keyword(v, s, te));
            assert forall|j: int| s <= j < te implies is_digit(#[trigger] v[j]) by {
                assert(v[j] == a[j - s]);
            }
            assert(all_digits(v, s, te));
            // the keyword `of` follows
            assert(v[te] == 0x20 && v[te + 1] == 0x6f && v[te + 2] == 0x66 && v[te + 3] == 0x20
                && v[te + 4] == 0x7b);
            lemma_skip_ws_exact(v, te, te + 1);
            lemma_token_end_exact(v, te + 1, te + 3);
            assert(lower(0x6f) == 0x6f && lower(0x66) == 0x66);
            assert(is_kw_of(v, te + 1, te + 3));
            assert(is_threshold_head(v, te));
            // the count reads back as `k`
            assert forall|i: int| 0 <= i < dec_of(k).len() implies v[s + i] == #[trigger] dec_of(
                k,
            )[i] by {
                assert(v[s + i] == a[i]);
            }
            lemma_dec_val(v, s, k);
            assert(digits_val(v, s, te) == k);
            // the braced list opens right after
            lemma_skip_ws_exact(v, te + 3, te + 4);
            let pb = te + 4;
            assert(v[pb] == 0x7b);
            // the children read back
            assert(cs.len() >= 1);
            assert(writable(cs.first()));
            lemma_ser_first(cs[0]);
            assert(c[0] == ser(cs[0])[0]) by {
                if cs.len() > 1 {
                    assert(c == ser(cs[0]) + seq![0x2cu8, 0x20u8] + ser_list(cs.drop_first()));
                }
            }
            assert(v[s + dl + 5 + 0] == c[0]);
            lemma_token_byte_shape(v[pb + 1]);
            lemma_skip_ws_exact(v, pb + 1, pb + 1);
            assert forall|i: int| 0 <= i < ll implies v[skip_ws(v, pb + 1) + i]
                == #[trigger] ser_list(cs)[i] by {
                assert(v[s + dl + 5 + i] == c[i]);
            }
            lemma_args_rt(v, pb + 1, cs, Seq::empty());
            assert(Seq::<SpecPolicy>::empty() + cs =~= cs);
            assert(h_args(v, pb + 1, Seq::empty()) == LStep::Done(cs, e));
            assert(h_atom(v, pos) == PStep::Done(SpecPolicy::Threshold(k, cs), e));
        },
    }
}

/// An `and` chain reads the text of a writable tree back as that tree: no
/// `and` keyword can follow it.
proof fn lemma_and_rt(v: Seq<u8>, pos: int, t: SpecPolicy)
    requires
        writable(t),
        0 <= pos <= v.len(),
        skip_ws(v, pos) + ser(t).len() <= v.len(),
        forall|i: int| 0 <= i < ser(t).len() ==> v[skip_ws(v, pos) + i] == #[trigger] ser(t)[i],
        follows_ok(v, skip_ws(v, pos) + ser(t).len()),
    ensures
        h_and(v, pos) == PStep::Done(t, skip_ws(v, pos) + ser(t).len()),
    decreases t, 1nat,
{
    let s = skip_ws(v, pos);
    let e = s + ser(t).len();
    lemma_atom_rt(v, pos, t);
    if e < v.len() {
        lemma_skip_ws_exact(v, e, e);
        lemma_token_end_exact(v, e, e);
    } else {
        assert(skip_ws(v, e) == e);
        assert(token_end(v, e) == e);
    }
    assert(!is_kw_and(v, e, e));
    assert(h_and_more(v, e, seq![t]) == PStep::Done(and_node(seq![t]), e));
    assert(and_node(seq![t]) == t);
}

/// A whole expression reads the text of a writable tree back as that tree:
/// no `or` keyword can follow it either.
proof fn lemma_expr_rt(v: Seq<u8>, pos: int, t: SpecPolicy)
    requires
        writable(t),
        0 <= pos <= v.len(),
        skip_ws(v, pos) + ser(t).len() <= v.len(),
        forall|i: int| 0 <= i < ser(t).len() ==> v[skip_ws(v, pos) + i] == #[trigger] ser(t)[i],
        follows_ok(v, skip_ws(v, pos) + ser(t).len()),
    ensures
        h_expr(v, pos) == PStep::Done(t, skip_ws(v, pos) + ser(t).len()),
    decreases t, 2nat,
{
    let s = skip_ws(v, pos);
    let e = s + ser(t).len();
    lemma_and_rt(v, pos, t);
    if e < v.len() {
        lemma_skip_ws_exact(v, e, e);
        lemma_token_end_exact(v, e, e);
    } else {
        assert(skip_ws(v, e) == e);
        assert(token_end(v, e) == e);
    }
    assert(!is_kw_or(v, e, e));
    assert(h_or_more(v, e, seq![t]) == PStep::Done(or_node(seq![t]), e));
    assert(or_node(seq![t]) == t);
}

/// A child list reads the texts of writable trees, separated by `, ` and
/// closed by a brace, back as those trees.
#[verifier::rlimit(60)]
proof fn lemma_args_rt(v: Seq<u8>, pos: int, cs: Seq<SpecPolicy>, acc: Seq<SpecPolicy>)
    requires
        cs.len() >= 1,
        writable_list(cs),
        0 <= pos <= v.len(),
        skip_ws(v, pos) + ser_list(cs).len() + 1 <= v.len(),
        forall|i: int|
            0 <= i < ser_list(cs).len() ==> v[skip_ws(v, pos) + i] == #[trigger] ser_list(cs)[i],
        v[skip_ws(v, pos) + ser_list(cs).len()] == 0x7d,
    ensures
        h_args(v, pos, acc) == LStep::Done(
            acc + cs,
            skip_ws(v, pos) + ser_list(cs).len() + 1,
        ),
    decreases cs, 3nat,
{
    let s = skip_ws(v, pos);
    let ll = ser_list(cs).len() as int;
    assert(writable(cs.first()));
    if cs.len() == 1 {
        assert(ser_list(cs) == ser(cs[0]));
        assert forall|i: int| 0 <= i < ser(cs[0]).len() implies v[s + i] == #[trigger] ser(
            cs[0],
        )[i] by {
            assert(v[s + i] == ser_list(cs)[i]);
        }
        lemma_expr_rt(v, pos, cs[0]);
        let e = s + ser(cs[0]).len() as int;
        assert(v[e] == 0x7d);
        lemma_skip_ws_exact(v, e, e);
        assert(h_expr(v, pos) == PStep::Done(cs[0], e));
        assert(acc.push(cs[0]) =~= acc + cs);
        assert(h_args(v, pos, acc) == LStep::Done(acc + cs, e + 1));
    } else {
        let rest = cs.drop_first();
        let c0 = ser(cs[0]);
        let cr = ser_list(rest);
        assert(ser_list(cs) == c0 + seq![0x2cu8, 0x20u8] + cr);
        let e0 = s + c0.len() as int;
        assert(v[e0] == 0x2c) by {
            assert(ser_list(cs)[c0.len() as int] == 0x2c);
        }
        assert(v[e0 + 1] == 0x20) by {
            assert(ser_list(cs)[c0.len() + 1int] == 0x20);
        }
        assert forall|i: int| 0 <= i < cr.len() implies v[e0 + 2 + i] == #[trigger] cr[i] by {
            assert(v[s + (c0.len() + 2 + i)] == ser_list(cs)[c0.len() + 2 + i]);
            assert(ser_list(cs)[c0.len() + 2 + i] == cr[i]);
        }
        assert forall|i: int| 0 <= i < c0.len() implies v[s + i] == #[trigger] c0[i] by {
            assert(v[s + i] == ser_list(cs)[i]);
            assert(ser_list(cs)[i] == c0[i]);
        }
        lemma_expr_rt(v, pos, cs[0]);
        assert(h_expr(v, pos) == PStep::Done(cs[0], e0));
        lemma_skip_ws_exact(v, e0, e0);
        // the next child opens right after the separator
        assert(writable_list(rest));
        assert(rest.len() >= 1);
        assert(writable(rest.first()));
        lemma_ser_first(rest[0]);
        assert(cr[0] == ser(rest[0])[0]) by {
            if rest.len() > 1 {
                assert(cr == ser(rest[0]) + seq![0x2cu8, 0x20u8] + ser_list(rest.drop_first()));
            }
        }
        assert(v[e0 + 2 + 0] == cr[0]);
        lemma_token_byte_shape(v[e0 + 2]);
        lemma_skip_ws_exact(v, e0 + 1, e0 + 2);
        assert(v[e0 + 2 + cr.len()] == 0x7d);
        lemma_args_rt(v, e0 + 1, rest, acc.push(cs[0]));
        assert(acc.push(cs[0]) + rest =~= acc + cs);
        assert(h_args(v, e0 + 1, acc.push(cs[0])) == LStep::Done(acc + cs, s + ll + 1));
        assert(h_args(v, pos, acc) == LStep::Done(acc + cs, s + ll + 1));
    }
}

/// A writable tree appended to a writable list keeps the list writable.
proof fn lemma_writable_list_push(cs: Seq<SpecPolicy>, t: SpecPolicy)
    requires
        writable_list(cs),
        writable(t),
    ensures
        writable_list(cs.push(t)),
    decreases cs.len(),
{
    assert(writable_list(Seq::<SpecPolicy>::empty()));
    if cs.len() == 0 {
        assert(cs.push(t).first() == t);
        assert(cs.push(t).drop_first() =~= Seq::<SpecPolicy>::empty());
    } else {
        assert(writable(cs.first()) && writable_list(cs.drop_first()));
        lemma_writable_list_push(cs.drop_first(), t);
        assert(cs.push(t).first() == cs.first());
        assert(cs.push(t).drop_first() =~= cs.drop_first().push(t));
    }
}

/// Every tree of a writable list is writable.
proof fn lemma_writable_list_index(cs: Seq<SpecPolicy>, i: int)
    requires
        writable_list(cs),
        0 <= i < cs.len(),
    ensures
        writable(cs[i]),
    decreases i,
{
    if i > 0 {
        lemma_writable_list_index(cs.drop_first(), i - 1);
        assert(cs.drop_first()[i - 1] == cs[i]);
    }
}

/// Whatever an atom reads back is a writable tree.
proof fn lemma_atom_writable(v: Seq<u8>, pos: int)
    requires
        0 <= pos <= v.len(),
    ensures
        h_atom(v, pos) matches PStep::Done(t, p) ==> writable(t),
    decreases v.len() - pos, 1int,
{
    let pw = skip_ws(v, pos);
    if pw < v.len() && v[pw] == 0x28 {
        lemma_expr_writable(v, pw + 1);
    } else {
        let te = token_end(v, pw);
        if te == pw || te > v.len() {
        } else if is_keyword(v, pw, te) {
        } else if all_digits(v, pw, te) && is_threshold_head(v, te) {
            let te2 = token_end(v, skip_ws(v, te));
            let pb = skip_ws(v, te2);
            if pb < v.len() && v[pb] == 0x7b {
                lemma_args_writable(v, pb + 1, Seq::empty());
            }
        } else {
            let p = v.subrange(pw, te);
            crate::scan::lemma_tok_count_le(v, pw);
            assert forall|j: int| 0 <= j < p.len() implies is_token_byte(#[trigger] p[j]) by {
                assert(p[j] == v[pw + j]);
                assert(is_token_byte(v[pw + j]));
            }
            assert forall|i: int| 0 <= i < p.len() implies v[pw + i] == #[trigger] p[i] by {}
            lemma_keyword_bridge(v, pw, te, p);
            assert(writable(SpecPolicy::Leaf(p)));
        }
    }
}

/// Whatever an `and` chain reads back is a writable tree.
proof fn lemma_and_writable(v: Seq<u8>, pos: int)
    requires
        0 <= pos <= v.len(),
    ensures
        h_and(v, pos) matches PStep::Done(t, p) ==> writable(t),
    decreases v.len() - pos, 3int,
{
    lemma_atom_writable(v, pos);
    match h_atom(v, pos) {
        PStep::Fail(_) => {},
        PStep::Done(t1, p1) => {
            if pos <= p1 <= v.len() {
                assert(writable_list(Seq::<SpecPolicy>::empty()));
                assert(seq![t1].first() == t1);
                assert(seq![t1].drop_first() =~= Seq::<SpecPolicy>::empty());
                assert(writable_list(seq![t1]));
                lemma_more_writable(v, p1, seq![t1], true);
            }
        },
    }
}

/// Whatever a chain continuation reads back is a writable tree, provided the
/// terms gathered so far are; `conj` picks the `and` or the `or` chain.
proof fn lemma_more_writable(v: Seq<u8>, pos: int, acc: Seq<SpecPolicy>, conj: bool)
    requires
        0 <= pos <= v.len(),
        acc.len() >= 1,
        writable_list(acc),
    ensures
        conj ==> (h_and_more(v, pos, acc) matches PStep::Done(t, p) ==> writable(t)),
        !conj ==> (h_or_more(v, pos, acc) matches PStep::Done(t, p) ==> writable(t)),
    decreases v.len() - pos, 2int,
{
    let pw = skip_ws(v, pos);
    let te = token_end(v, pw);
    lemma_writable_list_index(acc, 0);
    if conj {
        if is_kw_and(v, pw, te) && te <= v.len() {
            lemma_atom_writable(v, te);
            match h_atom(v, te) {
                PStep::Fail(_) => {},
                PStep::Done(t2, p2) => {
                    if pos < p2 <= v.len() {
                        lemma_writable_list_push(acc, t2);
                        lemma_more_writable(v, p2, acc.push(t2), true);
                    }
                },
            }
        } else {
            assert(writable(and_node(acc)));
        }
    } else {
        if is_kw_or(v, pw, te) && te <= v.len() {
            lemma_and_writable(v, te);
            match h_and(v, te) {
                PStep::Fail(_) => {},
                PStep::Done(t2, p2) => {
                    if pos < p2 <= v.len() {
                        lemma_writable_list_push(acc, t2);
                        lemma_more_writable(v, p2, acc.push(t2), false);
                    }
                },
            }
        } else {
            assert(writable(or_node(acc)));
        }
    }
}

/// Whatever a whole expression reads back is a writable tree.
proof fn lemma_expr_writable(v: Seq<u8>, pos: int)
    requires
        0 <= pos <= v.len(),
    ensures
        h_expr(v, pos) matches PStep::Done(t, p) ==> writable(t),
    decreases v.len() - pos, 5int,
{
    lemma_and_writable(v, pos);
    match h_and(v, pos) {
        PStep::Fail(_) => {},
        PStep::Done(t1, p1) => {
            if pos <= p1 <= v.len() {
                assert(writable_list(Seq::<SpecPolicy>::empty()));
                assert(seq![t1].first() == t1);
                assert(seq![t1].drop_first() =~= Seq::<SpecPolicy>::empty());
                assert(writable_list(seq![t1]));
                lemma_more_writable(v, p1, seq![t1], false);
            }
        },
    }
}

/// Whatever a child list reads back extends its writable terms with writable
/// terms only.
proof fn lemma_args_writable(v: Seq<u8>, pos: int, acc: Seq<SpecPolicy>)
    requires
        0 <= pos <= v.len(),
        writable_list(acc),
    ensures
        h_args(v, pos, acc) matches LStep::Done(cs, p) ==> writable_list(cs),
    decreases v.len() - pos, 6int,
{
    lemma_expr_writable(v, pos);
    match h_expr(v, pos) {
        PStep::Fail(_) => {},
        PStep::Done(t, p1) => {
            if pos <= p1 <= v.len() {
                let ps = skip_ws(v, p1);
                lemma_writable_list_push(acc, t);
                if ps < v.len() && v[ps] == 0x2c {
                    lemma_args_writable(v, ps + 1, acc.push(t));
                }
            }
        },
    }
}

/// Re-parsing the canonical text of a writable tree yields exactly that tree,
/// so its satisfaction behaviour against every attribute set is unchanged.
pub proof fn lemma_serialize_round_trip(t: SpecPolicy)
    requires
        writable(t),
    ensures
        spec_parse_human(ser(t)) == Ok::<SpecPolicy, PolicyParseError>(t),
{
    let v = ser(t);
    lemma_ser_first(t);
    lemma_token_byte_shape(v[0]);
    lemma_skip_ws_exact(v, 0, 0);
    lemma_expr_rt(v, 0, t);
    assert(h_expr(v, 0) == PStep::Done(t, v.len() as int));
    assert(skip_ws(v, v.len() as int) == v.len());
}

/// A structured node reads the structured text of a writable tree back as
/// that tree, ending right after it.
#[verifier::rlimit(100)]
proof fn lemma_json_node_rt(v: Seq<u8>, pos: int, t: SpecPolicy)
    requires
        writable_json(t),
        0 <= pos <= v.len(),
        skip_ws(v, pos) + ser_json(t).len() <= v.len(),
        forall|i: int|
            0 <= i < ser_json(t).len() ==> v[skip_ws(v, pos) + i] == #[trigger] ser_json(t)[i],
    ensures
        j_node(v, pos) == PStep::Done(t, skip_ws(v, pos) + ser_json(t).len()),
    decreases t, 1nat,
{
    let s = skip_ws(v, pos);
    let e = s + ser_json(t).len();
    match t {
        SpecPolicy::Leaf(p) => {
            let pl = p.len() as int;
            assert(ser_json(t) == seq![0x7bu8, 0x22u8] + p + seq![
                0x22u8,
                0x3au8,
                0x7bu8,
                0x7du8,
                0x7du8,
            ]);
            assert(v[s] == 0x7b && v[s + 1] == 0x22) by {
                assert(v[s + 0] == ser_json(t)[0] && ser_json(t)[0] == 0x7b);
                assert(v[s + 1] == ser_json(t)[1] && ser_json(t)[1] == 0x22);
            }
            assert forall|i: int| 0 <= i < pl implies v[s + 2 + i] == #[trigger] p[i] by {
                assert(v[s + (2 + i)] == ser_json(t)[2 + i]);
                assert(ser_json(t)[2 + i] == p[i]);
            }
            assert(v[s + 2 + pl] == 0x22 && v[s + 3 + pl] == 0x3a && v[s + 4 + pl] == 0x7b && v[s
                + 5 + pl] == 0x7d && v[s + 6 + pl] == 0x7d) by {
                assert(v[s + (2 + pl)] == ser_json(t)[2 + pl] && ser_json(t)[2 + pl] == 0x22);
                assert(v[s + (3 + pl)] == ser_json(t)[3 + pl] && ser_json(t)[3 + pl] == 0x3a);
                assert(v[s + (4 + pl)] == ser_json(t)[4 + pl] && ser_json(t)[4 + pl] == 0x7b);
                assert(v[s + (5 + pl)] == ser_json(t)[5 + pl] && ser_json(t)[5 + pl] == 0x7d);
                assert(v[s + (6 + pl)] == ser_json(t)[6 + pl] && ser_json(t)[6 + pl] == 0x7d);
            }
            lemma_skip_ws_exact(v, s + 1, s + 1);
            assert forall|j: int| s + 2 <= j < s + 2 + pl implies is_str_byte(#[trigger] v[j]) by {
                let i = j - (s + 2);
                assert(v[s + 2 + i] == p[i]);
                assert(is_str_byte(p[i]));
            }
            lemma_str_end_exact(v, s + 2, s + 2 + pl);
            lemma_skip_ws_exact(v, s + 3 + pl, s + 3 + pl);
            lemma_skip_ws_exact(v, s + 4 + pl, s + 4 + pl);
            lemma_skip_ws_exact(v, s + 5 + pl, s + 5 + pl);
            assert forall|i: int| 0 <= i < pl implies v.subrange(s + 2, s + 2 + pl)[i] == p[i] by {
                assert(v[s + 2 + i] == p[i]);
            }
            assert(v.subrange(s + 2, s + 2 + pl) =~= p);
            assert(j_leaf_tail(v, s + 4 + pl, p) == PStep::Done(SpecPolicy::Leaf(p), e));
            assert(j_node(v, pos) == PStep::Done(SpecPolicy::Leaf(p), e));
        },
        SpecPolicy::Threshold(k, cs) => {
            lemma_json_threshold_rt(v, pos, k, cs);
        },
    }
}

/// The threshold case of the previous lemma, stated over the node's parts.
#[verifier::rlimit(100)]
proof fn lemma_json_threshold_rt(v: Seq<u8>, pos: int, k: nat, cs: Seq<SpecPolicy>)
    requires
        writable_json(SpecPolicy::Threshold(k, cs)),
        0 <= pos <= v.len(),
        skip_ws(v, pos) + ser_json(SpecPolicy::Threshold(k, cs)).len() <= v.len(),
        forall|i: int|
            0 <= i < ser_json(SpecPolicy::Threshold(k, cs)).len() ==> v[skip_ws(v, pos) + i]
                == #[trigger] ser_json(SpecPolicy::Threshold(k, cs))[i],
    ensures
        j_node(v, pos) == PStep::Done(
            SpecPolicy::Threshold(k, cs),
            skip_ws(v, pos) + ser_json(SpecPolicy::Threshold(k, cs)).len(),
        ),
    decreases SpecPolicy::Threshold(k, cs), 0nat,
{
    let t = SpecPolicy::Threshold(k, cs);
    let s = skip_ws(v, pos);
    let e = s + ser_json(t).len();
        let a = dec_of(k);
        let c = ser_json_list(cs);
        let dl = a.len() as int;
        let ll = c.len() as int;
        lemma_dec_of_digits(k);
        assert(ser_json(t) == seq![0x7bu8, 0x22u8] + threshold_lit() + seq![0x22u8, 0x3au8] + a
            + seq![0x2cu8, 0x22u8] + children_lit() + seq![0x22u8, 0x3au8, 0x5bu8] + c + seq![
            0x5du8,
            0x7du8,
        ]);
        assert(ser_json(t).len() == dl + ll + 28);
        assert(v[s] == 0x7b && v[s + 1] == 0x22) by {
            assert(v[s + 0] == ser_json(t)[0] && ser_json(t)[0] == 0x7b);
            assert(v[s + 1] == ser_json(t)[1] && ser_json(t)[1] == 0x22);
        }
        assert forall|i: int| 0 <= i < 9 implies v[s + 2 + i] == #[trigger] threshold_lit()[i]
            by {
            assert(v[s + (2 + i)] == ser_json(t)[2 + i]);
            assert(ser_json(t)[2 + i] == threshold_lit()[i]);
        }
        assert(v[s + 11] == 0x22 && v[s + 12] == 0x3a) by {
            assert(v[s + (11)] == ser_json(t)[11] && ser_json(t)[11] == 0x22);
            assert(v[s + (12)] == ser_json(t)[12] && ser_json(t)[12] == 0x3a);
        }
        assert forall|i: int| 0 <= i < dl implies v[s + 13 + i] == #[trigger] a[i] by {
            assert(v[s + (13 + i)] == ser_json(t)[13 + i]);
            assert(ser_json(t)[13 + i] == a[i]);
        }
        let de0 = s + 13 + dl;
        assert(v[de0] == 0x2c && v[de0 + 1] == 0x22) by {
            assert(v[s + (13 + dl)] == ser_json(t)[13 + dl] && ser_json(t)[13 + dl] == 0x2c);
            assert(v[s + (14 + dl)] == ser_json(t)[14 + dl] && ser_json(t)[14 + dl] == 0x22);
        }
        assert forall|i: int| 0 <= i < 8 implies v[de0 + 2 + i] == #[trigger] children_lit()[i]
            by {
            assert(v[s + (15 + dl + i)] == ser_json(t)[15 + dl + i]);
            assert(ser_json(t)[15 + dl + i] == children_lit()[i]);
        }
        assert(v[de0 + 10] == 0x22 && v[de0 + 11] == 0x3a && v[de0 + 12] == 0x5b) by {
            assert(v[s + (23 + dl)] == ser_json(t)[23 + dl] && ser_json(t)[23 + dl] == 0x22);
            assert(v[s + (24 + dl)] == ser_json(t)[24 + dl] && ser_json(t)[24 + dl] == 0x3a);
            assert(v[s + (25 + dl)] == ser_json(t)[25 + dl] && ser_json(t)[25 + dl] == 0x5b);
        }
        let lb = s + 26 + dl;
        assert forall|i: int| 0 <= i < ll implies v[lb + i] == #[trigger] c[i] by {
            assert(v[s + (26 + dl + i)] == ser_json(t)[26 + dl + i]);
            assert(ser_json(t)[26 + dl + i] == c[i]);
        }
        assert(v[lb + ll] == 0x5d && v[lb + ll + 1] == 0x7d) by {
            assert(v[s + (26 + dl + ll)] == ser_json(t)[26 + dl + ll] && ser_json(t)[26 + dl
                + ll] == 0x5d);
            assert(v[s + (27 + dl + ll)] == ser_json(t)[27 + dl + ll] && ser_json(t)[27 + dl
                + ll] == 0x7d);
        }
        // the node's key run is exactly `threshold`
        lemma_skip_ws_exact(v, s + 1, s + 1);
        assert forall|j: int| s + 2 <= j < s + 11 implies is_str_byte(#[trigger] v[j]) by {
            let i = j - (s + 2);
            assert(v[s + 2 + i] == threshold_lit()[i]);
            assert(is_str_byte(threshold_lit()[i]));
        }
        lemma_str_end_exact(v, s + 2, s + 11);
        lemma_skip_ws_exact(v, s + 12, s + 12);
        assert(v[s + 13 + 0] == a[0] && is_digit(a[0]));
        lemma_skip_ws_exact(v, s + 13, s + 13);
        assert forall|i: int| 0 <= i < 9 implies v.subrange(s + 2, s + 11)[i]
            == threshold_lit()[i] by {
            assert(v[s + 2 + i] == threshold_lit()[i]);
        }
        assert(v.subrange(s + 2, s + 11) =~= threshold_lit());
        // the count run is exactly the digits of `k`
        assert forall|j: int| s + 13 <= j < de0 implies is_digit(#[trigger] v[j]) by {
            let i = j - (s + 13);
            assert(v[s + 13 + i] == a[i]);
            assert(is_digit(a[i]));
        }
        lemma_dig_end_exact(v, s + 13, de0);
        assert forall|i: int| 0 <= i < dec_of(k).len() implies v[s + 13 + i]
            == #[trigger] dec_of(k)[i] by {
            assert(v[s + 13 + i] == a[i]);
        }
        lemma_dec_val(v, s + 13, k);
        // the `children` key and the list brackets
        lemma_skip_ws_exact(v, de0, de0);
        lemma_skip_ws_exact(v, de0 + 1, de0 + 1);
        assert forall|j: int| de0 + 2 <= j < de0 + 10 implies is_str_byte(#[trigger] v[j]) by {
            let i = j - (de0 + 2);
            assert(v[de0 + 2 + i] == children_lit()[i]);
            assert(is_str_byte(children_lit()[i]));
        }
        lemma_str_end_exact(v, de0 + 2, de0 + 10);
        assert forall|i: int| 0 <= i < 8 implies v.subrange(de0 + 2, de0 + 10)[i]
            == children_lit()[i] by {
            assert(v[de0 + 2 + i] == children_lit()[i]);
        }
        assert(v.subrange(de0 + 2, de0 + 10) =~= children_lit());
        lemma_skip_ws_exact(v, de0 + 11, de0 + 11);
        lemma_skip_ws_exact(v, de0 + 12, de0 + 12);
        // the children read back
        assert(cs.len() >= 1);
        lemma_json_list_rt(v, lb, cs, Seq::empty());
        assert(Seq::<SpecPolicy>::empty() + cs =~= cs);
        assert(j_more(v, lb, Seq::empty()) == LStep::Done(cs, lb + ll + 1));
        lemma_skip_ws_exact(v, lb + ll + 1, lb + ll + 1);
        assert(j_threshold_tail(v, pos, s + 13) == PStep::Done(
            SpecPolicy::Threshold(k, cs),
            e,
        ));
    assert(j_node(v, pos) == PStep::Done(SpecPolicy::Threshold(k, cs), e));
}

/// A child list reads the structured texts of writable trees, separated by
/// commas and closed by a bracket, back as those trees.
proof fn lemma_json_list_rt(v: Seq<u8>, pos: int, cs: Seq<SpecPolicy>, acc: Seq<SpecPolicy>)
    requires
        cs.len() >= 1,
        writable_json_list(cs),
        0 <= pos <= v.len(),
        pos + ser_json_list(cs).len() + 1 <= v.len(),
        forall|i: int|
            0 <= i < ser_json_list(cs).len() ==> v[pos + i] == #[trigger] ser_json_list(cs)[i],
        v[pos + ser_json_list(cs).len()] == 0x5d,
    ensures
        j_more(v, pos, acc) == LStep::Done(acc + cs, pos + ser_json_list(cs).len() + 1),
    decreases cs, 2nat,
{
    let ll = ser_json_list(cs).len() as int;
    assert(writable_json(cs.first()));
    assert(ser_json(cs[0])[0] == 0x7b);
    if cs.len() == 1 {
        assert(ser_json_list(cs) == ser_json(cs[0]));
        assert(v[pos] == ser_json_list(cs)[0]);
        lemma_skip_ws_exact(v, pos, pos);
        assert forall|i: int| 0 <= i < ser_json(cs[0]).len() implies v[skip_ws(v, pos) + i]
            == #[trigger] ser_json(cs[0])[i] by {
            assert(v[pos + i] == ser_json_list(cs)[i]);
        }
        lemma_json_node_rt(v, pos, cs[0]);
        let e0 = pos + ser_json(cs[0]).len() as int;
        assert(v[e0] == 0x5d);
        lemma_skip_ws_exact(v, e0, e0);
        assert(acc.push(cs[0]) =~= acc + cs);
        assert(j_more(v, pos, acc) == LStep::Done(acc + cs, e0 + 1));
    } else {
        let rest = cs.drop_first();
        let c0 = ser_json(cs[0]);
        let cr = ser_json_list(rest);
        assert(ser_json_list(cs) == c0 + seq![0x2cu8] + cr);
        let e0 = pos + c0.len() as int;
        assert(v[e0] == 0x2c) by {
            assert(v[pos + (c0.len() as int)] == ser_json_list(cs)[c0.len() as int]);
        }
        assert forall|i: int| 0 <= i < cr.len() implies v[e0 + 1 + i] == #[trigger] cr[i] by {
            assert(v[pos + (c0.len() + 1 + i)] == ser_json_list(cs)[c0.len() + 1 + i]);
            assert(ser_json_list(cs)[c0.len() + 1 + i] == cr[i]);
        }
        assert forall|i: int| 0 <= i < c0.len() implies v[pos + i] == #[trigger] c0[i] by {
            assert(v[pos + i] == ser_json_list(cs)[i]);
            assert(ser_json_list(cs)[i] == c0[i]);
        }
        assert(v[pos] == c0[0]);
        lemma_skip_ws_exact(v, pos, pos);
        assert forall|i: int| 0 <= i < ser_json(cs[0]).len() implies v[skip_ws(v, pos) + i]
            == #[trigger] ser_json(cs[0])[i] by {
            assert(v[pos + i] == c0[i]);
        }
        lemma_json_node_rt(v, pos, cs[0]);
        lemma_skip_ws_exact(v, e0, e0);
        assert(writable_json_list(rest));
        assert(rest.len() >= 1);
        assert(v[e0 + 1 + cr.len()] == 0x5d);
        lemma_json_list_rt(v, e0 + 1, rest, acc.push(cs[0]));
        assert(acc.push(cs[0]) + rest =~= acc + cs);
        assert(j_more(v, e0 + 1, acc.push(cs[0])) == LStep::Done(acc + cs, pos + ll + 1));
        assert(j_more(v, pos, acc) == LStep::Done(acc + cs, pos + ll + 1));
    }
}

/// The structured text of a tree opens with a brace.
proof fn lemma_ser_json_first(t: SpecPolicy)
    ensures
        ser_json(t).len() >= 7,
        ser_json(t)[0] == 0x7b,
{
    match t {
        SpecPolicy::Leaf(p) => {},
        SpecPolicy::Threshold(k, cs) => {},
    }
}

/// Re-parsing the canonical structured text of a structurally writable tree
/// yields exactly that tree.
pub proof fn lemma_serialize_json_round_trip(t: SpecPolicy)
    requires
        writable_json(t),
    ensures
        spec_parse_json(ser_json(t)) == Ok::<SpecPolicy, PolicyParseError>(t),
{
    let v = ser_json(t);
    lemma_ser_json_first(t);
    lemma_skip_ws_exact(v, 0, 0);
    lemma_json_node_rt(v, 0, t);
    assert(j_node(v, 0) == PStep::Done(t, v.len() as int));
    assert(skip_ws(v, v.len() as int) == v.len());
}

/// Whatever a structured node reads back is structurally writable.
proof fn lemma_json_node_writable(v: Seq<u8>, pos: int)
    requires
        0 <= pos <= v.len(),
    ensures
        j_node(v, pos) matches PStep::Done(t, p) ==> writable_json(t),
    decreases v.len() - pos, 1int,
{
    let p0 = skip_ws(v, pos);
    if p0 < v.len() && v[p0] == 0x7b {
        let p1 = skip_ws(v, p0 + 1);
        if p1 < v.len() && v[p1] == 0x22 {
            let lo = p1 + 1;
            let hi = str_end(v, lo);
            if hi < v.len() && v[hi] == 0x22 {
                let p2 = skip_ws(v, hi + 1);
                if p2 < v.len() && v[p2] == 0x3a {
                    let p3 = skip_ws(v, p2 + 1);
                    if v.subrange(lo, hi) == threshold_lit() {
                        lemma_json_tail_writable(v, pos, p3);
                    } else {
                        if 0 <= lo <= v.len() {
                            lemma_str_count_le(v, lo);
                            let p = v.subrange(lo, hi);
                            assert forall|j: int| 0 <= j < p.len() implies is_str_byte(
                                #[trigger] p[j],
                            ) by {
                                assert(p[j] == v[lo + j]);
                                assert(is_str_byte(v[lo + j]));
                            }
                        }
                    }
                }
            }
        }
    }
}

/// Whatever a threshold object's tail reads back is structurally writable.
proof fn lemma_json_tail_writable(v: Seq<u8>, pos: int, p3: int)
    requires
        0 <= pos <= v.len(),
    ensures
        j_threshold_tail(v, pos, p3) matches PStep::Done(t, p) ==> writable_json(t),
    decreases v.len() - pos, 0int,
{
    if 0 <= pos <= v.len() && pos < p3 <= v.len() {
        let de = dig_end(v, p3);
        if !(de == p3 || de > v.len()) {
            let p4 = skip_ws(v, de);
            if p4 < v.len() && v[p4] == 0x2c {
                let p5 = skip_ws(v, p4 + 1);
                if p5 < v.len() && v[p5] == 0x22 {
                    let clo = p5 + 1;
                    let chi = str_end(v, clo);
                    if chi < v.len() && v[chi] == 0x22 && v.subrange(clo, chi) == children_lit() {
                        let p6 = skip_ws(v, chi + 1);
                        if p6 < v.len() && v[p6] == 0x3a {
                            let p7 = skip_ws(v, p6 + 1);
                            if p7 < v.len() && v[p7] == 0x5b {
                                assert(writable_json_list(Seq::<SpecPolicy>::empty()));
                                lemma_json_more_writable(v, p7 + 1, Seq::empty());
                            }
                        }
                    }
                }
            }
        }
    }
}

/// Whatever a child list reads back extends its structurally writable terms
/// with structurally writable terms only.
proof fn lemma_json_more_writable(v: Seq<u8>, pos: int, acc: Seq<SpecPolicy>)
    requires
        0 <= pos <= v.len(),
        writable_json_list(acc),
    ensures
        j_more(v, pos, acc) matches LStep::Done(cs, p) ==> writable_json_list(cs),
    decreases v.len() - pos, 3int,
{
    lemma_json_node_writable(v, pos);
    match j_node(v, pos) {
        PStep::Fail(_) => {},
        PStep::Done(t, p1) => {
            if pos <= p1 <= v.len() {
                let ps = skip_ws(v, p1);
                lemma_json_writable_list_push(acc, t);
                if ps < v.len() && v[ps] == 0x2c {
                    lemma_json_more_writable(v, ps + 1, acc.push(t));
                }
            }
        },
    }
}

/// A structurally writable tree appended to a structurally writable list
/// keeps the list so.
proof fn lemma_json_writable_list_push(cs: Seq<SpecPolicy>, t: SpecPolicy)
    requires
        writable_json_list(cs),
        writable_json(t),
    ensures
        writable_json_list(cs.push(t)),
    decreases cs.len(),
{
    assert(writable_json_list(Seq::<SpecPolicy>::empty()));
    if cs.len() == 0 {
        assert(cs.push(t).first() == t);
        assert(cs.push(t).drop_first() =~= Seq::<SpecPolicy>::empty());
    } else {
        assert(writable_json(cs.first()) && writable_json_list(cs.drop_first()));
        lemma_json_writable_list_push(cs.drop_first(), t);
        assert(cs.push(t).first() == cs.first());
        assert(cs.push(t).drop_first() =~= cs.drop_first().push(t));
    }
}

/// Parsing, then serializing, then re-parsing in the structured dialect: a
/// tree read from a structured text, written out and read again, is the very
/// same tree, so its satisfaction behaviour against every attribute set is
/// identical.
pub proof fn lemma_parse_json_serialize_round_trip(v: Seq<u8>, t: SpecPolicy)
    requires
        spec_parse_json(v) == Ok::<SpecPolicy, PolicyParseError>(t),
    ensures
        writable_json(t),
        spec_parse_json(ser_json(t)) == Ok::<SpecPolicy, PolicyParseError>(t),
{
    lemma_json_node_writable(v, 0);
    lemma_serialize_json_round_trip(t);
}

/// Parsing, then serializing, then re-parsing: a tree read from a
/// human-dialect text, written out and read again, is the very same tree, so
/// its satisfaction behaviour against every attribute set is identical.
pub proof fn lemma_parse_serialize_round_trip(v: Seq<u8>, t: SpecPolicy)
    requires
        spec_parse_human(v) == Ok::<SpecPolicy, PolicyParseError>(t),
    ensures
        writable(t),
        spec_parse_human(ser(t)) == Ok::<SpecPolicy, PolicyParseError>(t),
{
    lemma_expr_writable(v, 0);
    lemma_serialize_round_trip(t);
}

/// A writable tree is well-formed.
proof fn lemma_writable_wf(t: SpecPolicy)
    requires
        writable(t),
    ensures
        wf(t),
    decreases t, 0nat,
{
    match t {
        SpecPolicy::Leaf(_) => {},
        SpecPolicy::Threshold(k, cs) => {
            lemma_writable_list_wf(cs);
        },
    }
}

/// A writable list of trees is a well-formed list of trees.
proof fn lemma_writable_list_wf(cs: Seq<SpecPolicy>)
    requires
        writable_list(cs),
    ensures
        wf_all(cs),
    decreases cs, 1nat,
{
    if cs.len() > 0 {
        lemma_writable_wf(cs.first());
        lemma_writable_list_wf(cs.drop_first());
    }
}

/// A well-formed tree appended to a well-formed list keeps it well-formed.
proof fn lemma_wf_all_push(cs: Seq<SpecPolicy>, t: SpecPolicy)
    requires
        wf_all(cs),
        wf(t),
    ensures
        wf_all(cs.push(t)),
    decreases cs.len(),
{
    assert(wf_all(Seq::<SpecPolicy>::empty()));
    if cs.len() == 0 {
        assert(cs.push(t).first() == t);
        assert(cs.push(t).drop_first() =~= Seq::<SpecPolicy>::empty());
    } else {
        assert(wf(cs.first()) && wf_all(cs.drop_first()));
        lemma_wf_all_push(cs.drop_first(), t);
        assert(cs.push(t).first() == cs.first());
        assert(cs.push(t).drop_first() =~= cs.drop_first().push(t));
    }
}

/// Whatever a structured node reads back is a well-formed tree.
proof fn lemma_json_node_wf(v: Seq<u8>, pos: int)
    requires
        0 <= pos <= v.len(),
    ensures
        j_node(v, pos) matches PStep::Done(t, p) ==> wf(t),
    decreases v.len() - pos, 1int,
{
    let p0 = skip_ws(v, pos);
    if p0 < v.len() && v[p0] == 0x7b {
        let p1 = skip_ws(v, p0 + 1);
        if p1 < v.len() && v[p1] == 0x22 {
            let lo = p1 + 1;
            let hi = str_end(v, lo);
            if hi < v.len() && v[hi] == 0x22 {
                let p2 = skip_ws(v, hi + 1);
                if p2 < v.len() && v[p2] == 0x3a {
                    let p3 = skip_ws(v, p2 + 1);
                    if v.subrange(lo, hi) == threshold_lit() {
                        lemma_json_tail_wf(v, pos, p3);
                    }
                }
            }
        }
    }
}

/// Whatever a threshold object's tail reads back is a well-formed tree.
proof fn lemma_json_tail_wf(v: Seq<u8>, pos: int, p3: int)
    requires
        0 <= pos <= v.len(),
    ensures
        j_threshold_tail(v, pos, p3) matches PStep::Done(t, p) ==> wf(t),
    decreases v.len() - pos, 0int,
{
    if 0 <= pos <= v.len() && pos < p3 <= v.len() {
        let de = crate::scan::dig_end(v, p3);
        if !(de == p3 || de > v.len()) {
            let p4 = skip_ws(v, de);
            if p4 < v.len() && v[p4] == 0x2c {
                let p5 = skip_ws(v, p4 + 1);
                if p5 < v.len() && v[p5] == 0x22 {
                    let clo = p5 + 1;
                    let chi = str_end(v, clo);
                    if chi < v.len() && v[chi] == 0x22 && v.subrange(clo, chi)
                        == crate::json::children_lit() {
                        let p6 = skip_ws(v, chi + 1);
                        if p6 < v.len() && v[p6] == 0x3a {
                            let p7 = skip_ws(v, p6 + 1);
                            if p7 < v.len() && v[p7] == 0x5b {
                                assert(wf_all(Seq::<SpecPolicy>::empty()));
                                lemma_json_more_wf(v, p7 + 1, Seq::empty());
                            }
                        }
                    }
                }
            }
        }
    }
}

/// Whatever a child list reads back extends its well-formed terms with
/// well-formed terms only.
proof fn lemma_json_more_wf(v: Seq<u8>, pos: int, acc: Seq<SpecPolicy>)
    requires
        0 <= pos <= v.len(),
        wf_all(acc),
    ensures
        j_more(v, pos, acc) matches LStep::Done(cs, p) ==> wf_all(cs),
    decreases v.len() - pos, 3int,
{
    lemma_json_node_wf(v, pos);
    match j_node(v, pos) {
        PStep::Fail(_) => {},
        PStep::Done(t, p1) => {
            if pos <= p1 <= v.len() {
                let ps = skip_ws(v, p1);
                lemma_wf_all_push(acc, t);
                if ps < v.len() && v[ps] == 0x2c {
                    lemma_json_more_wf(v, ps + 1, acc.push(t));
                }
            }
        },
    }
}

/// Every tree the parser accepts, under either dialect, is well-formed:
/// each threshold asks for a count its children can meet.
pub proof fn lemma_parse_wf(v: Seq<u8>, dialect: PolicyDialect, t: SpecPolicy)
    requires
        spec_parse(v, dialect) == Ok::<SpecPolicy, PolicyParseError>(t),
    ensures
        wf(t),
{
    match dialect {
        PolicyDialect::Json => {
            lemma_json_node_wf(v, 0);
        },
        PolicyDialect::Human => {
            lemma_expr_writable(v, 0);
            lemma_writable_wf(t);
        },
    }
}

} // verus!
