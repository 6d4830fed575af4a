//! Serialization of a policy tree back to an equivalent text, one writer per
//! dialect, for audit and debug display. The human form prints a leaf as its
//! predicate and a threshold node as the explicit `k of { c, ... }`; the
//! structured form prints the canonical object shapes.

use vstd::prelude::*;
use crate::scan::{is_token_byte, is_str_byte};
use crate::tree::{SpecPolicy, PolicyTree, views_of, lemma_views_of_len};
use crate::human::{is_kw_and, is_kw_or, is_kw_of};
use crate::json::{threshold_lit, children_lit};

verus! {

/// The decimal digits of `n`, most significant first.
pub open spec fn dec_of(n: nat) -> Seq<u8>
    decreases n,
{
    if n < 10 {
        seq![(0x30 + n) as u8]
    } else {
        dec_of(n / 10).push((0x30 + n % 10) as u8)
    }
}

/// The bytes ` of {` that open a threshold form.
pub open spec fn of_open() -> Seq<u8> {
    seq![0x20u8, 0x6fu8, 0x66u8, 0x20u8, 0x7bu8]
}

/// The canonical text of a tree: a leaf is its predicate; a threshold node is
/// `k of { c, ... }`.
pub open spec fn ser(t: SpecPolicy) -> Seq<u8>
    decreases t, 0nat,
{
    match t {
        SpecPolicy::Leaf(p) => p,
        SpecPolicy::Threshold(k, cs) => dec_of(k) + of_open() + ser_list(cs) + seq![0x7du8],
    }
}

/// The texts of a node's children, separated by `, `.
pub open spec fn ser_list(cs: Seq<SpecPolicy>) -> Seq<u8>
    decreases cs, 1nat,
{
    if cs.len() == 0 {
        Seq::empty()
    } else if cs.len() == 1 {
        ser(cs[0])
    } else {
        ser(cs[0]) + seq![0x2cu8, 0x20u8] + ser_list(cs.drop_first())
    }
}

/// A predicate the dialect can write and read back: a reserved word, written
/// where a predicate stands, would be read as an operator.
pub open spec fn is_kw_seq(p: Seq<u8>) -> bool {
    is_kw_and(p, 0, p.len() as int) || is_kw_or(p, 0, p.len() as int) || is_kw_of(
        p,
        0,
        p.len() as int,
    )
}

/// A tree the dialect can write and read back: every leaf is a nonempty run
/// of predicate-token bytes and no reserved word, and every threshold is
/// within its children's count.
pub open spec fn writable(t: SpecPolicy) -> bool
    decreases t, 0nat,
{
    match t {
        SpecPolicy::Leaf(p) => p.len() >= 1 && (forall|j: int|
            0 <= j < p.len() ==> is_token_byte(#[trigger] p[j])) && !is_kw_seq(p),
        SpecPolicy::Threshold(k, cs) => 1 <= k <= cs.len() && writable_list(cs),
    }
}

/// Writability of every tree in a sequence.
pub open spec fn writable_list(cs: Seq<SpecPolicy>) -> bool
    decreases cs, 1nat,
{
    cs.len() == 0 || (writable(cs.first()) && writable_list(cs.drop_first()))
}

/// Appends the decimal digits of `k`.
fn push_dec(out: &mut Vec<u8>, k: usize)
    ensures
        final(out)@ == old(out)@ + dec_of(k as nat),
    decreases k,
{
    if k < 10 {
        out.push(0x30 + (k as u8));
        proof {
            assert(out@ =~= old(out)@ + dec_of(k as nat));
        }
    } else {
        push_dec(out, k / 10);
        out.push(0x30 + ((k % 10) as u8));
        proof {
            assert(out@ =~= old(out)@ + dec_of(k as nat));
        }
    }
}

/// Appends the canonical text of `t`.
#[verifier::loop_isolation(false)]
fn push_tree(out: &mut Vec<u8>, t: &PolicyTree)
    ensures
        final(out)@ == old(out)@ + ser(t.view()),
    decreases *t,
{
    match t {
        PolicyTree::Leaf(p) => {
            let mut i: usize = 0;
            while i < p.len()
                invariant
                    i <= p.len(),
                    out@ == old(out)@ + p@.subrange(0, i as int),
                decreases p.len() - i,
            {
                out.push(p[i]);
                proof {
                    assert(out@ =~= old(out)@ + p@.subrange(0, i + 1int));
                }
                i = i + 1;
            }
            proof {
                assert(p@.subrange(0, p@.len() as int) =~= p@);
            }
        },
        PolicyTree::Threshold(k, cs) => {
            push_dec(out, *k);
            out.push(0x20);
            out.push(0x6f);
            out.push(0x66);
            out.push(0x20);
            out.push(0x7b);
            let ghost base = old(out)@ + dec_of(*k as nat) + of_open();
            proof {
                assert(out@ =~= base);
                lemma_views_of_len(cs@);
                assert(views_of(cs@).subrange(0, 0) =~= Seq::<SpecPolicy>::empty());
                assert(ser_list(views_of(cs@).subrange(0, 0)) =~= Seq::<u8>::empty());
                assert(out@ =~= base + ser_list(views_of(cs@).subrange(0, 0)));
            }
            let mut i: usize = 0;
            while i < cs.len()
                invariant
                    i <= cs.len(),
                    out@ == base + ser_list(views_of(cs@).subrange(0, i as int)),
                decreases cs.len() - i,
            {
                if i > 0 {
                    out.push(0x2c);
                    out.push(0x20);
                }
                proof {
                    broadcast use vstd::std_specs::vec::axiom_vec_index_decreases;

                    assert(decreases_to!(*t => *cs));
                    assert(decreases_to!(*cs => cs@[i as int]));
                }
                push_tree(out, &cs[i]);
                proof {
                    lemma_ser_list_snoc(views_of(cs@), i as int);
                }
                i = i + 1;
            }
            out.push(0x7d);
            proof {
                assert(views_of(cs@).subrange(0, cs@.len() as int) =~= views_of(cs@));
                assert(out@ =~= old(out)@ + ser(t.view()));
            }
        },
    }
}

/// The canonical structured text of a tree: a leaf is `{"p":{}}`; a
/// threshold node is `{"threshold":k,"children":[c,...]}`.
pub open spec fn ser_json(t: SpecPolicy) -> Seq<u8>
    decreases t, 0nat,
{
    match t {
        SpecPolicy::Leaf(p) => seq![0x7bu8, 0x22u8] + p + seq![
            0x22u8,
            0x3au8,
            0x7bu8,
            0x7du8,
            0x7du8,
        ],
        SpecPolicy::Threshold(k, cs) => seq![0x7bu8, 0x22u8] + threshold_lit() + seq![
            0x22u8,
            0x3au8,
        ] + dec_of(k) + seq![0x2cu8, 0x22u8] + children_lit() + seq![0x22u8, 0x3au8, 0x5bu8]
            + ser_json_list(cs) + seq![0x5du8, 0x7du8],
    }
}

/// The structured texts of a node's children, separated by `,`.
pub open spec fn ser_json_list(cs: Seq<SpecPolicy>) -> Seq<u8>
    decreases cs, 1nat,
{
    if cs.len() == 0 {
        Seq::empty()
    } else if cs.len() == 1 {
        ser_json(cs[0])
    } else {
        ser_json(cs[0]) + seq![0x2cu8] + ser_json_list(cs.drop_first())
    }
}

/// A tree the structured dialect can write and read back: every leaf is made
/// of string-content bytes and is not the reserved key `threshold`, and every
/// threshold is within its children's count.
pub open spec fn writable_json(t: SpecPolicy) -> bool
    decreases t, 0nat,
{
    match t {
        SpecPolicy::Leaf(p) => (forall|j: int|
            0 <= j < p.len() ==> is_str_byte(#[trigger] p[j])) && p != threshold_lit(),
        SpecPolicy::Threshold(k, cs) => 1 <= k <= cs.len() && writable_json_list(cs),
    }
}

/// Structured writability of every tree in a sequence.
pub open spec fn writable_json_list(cs: Seq<SpecPolicy>) -> bool
    decreases cs, 1nat,
{
    cs.len() == 0 || (writable_json(cs.first()) && writable_json_list(cs.drop_first()))
}

/// Appends the canonical structured text of `t`.
#[verifier::loop_isolation(false)]
#[verifier::rlimit(100)]
fn push_tree_json(out: &mut Vec<u8>, t: &PolicyTree)
    ensures
        final(out)@ == old(out)@ + ser_json(t.view()),
    decreases *t,
{
    match t {
        PolicyTree::Leaf(p) => {
            out.push(0x7b);
            out.push(0x22);
            let mut i: usize = 0;
            while i < p.len()
                invariant
                    i <= p.len(),
                    out@ == old(out)@ + seq![0x7bu8, 0x22u8] + p@.subrange(0, i as int),
                decreases p.len() - i,
            {
                out.push(p[i]);
                proof {
                    assert(out@ =~= old(out)@ + seq![0x7bu8, 0x22u8] + p@.subrange(0, i + 1int));
                }
                i = i + 1;
            }
            out.push(0x22);
            out.push(0x3a);
            out.push(0x7b);
            out.push(0x7d);
            out.push(0x7d);
            proof {
                assert(p@.subrange(0, p@.len() as int) =~= p@);
                assert(out@ =~= old(out)@ + ser_json(t.view()));
            }
        },
        PolicyTree::Threshold(k, cs) => {
            out.push(0x7b);
            out.push(0x22);
            out.push(0x74);
            out.push(0x68);
            out.push(0x72);
            out.push(0x65);
            out.push(0x73);
            out.push(0x68);
            out.push(0x6f);
            out.push(0x6c);
            out.push(0x64);
            out.push(0x22);
            out.push(0x3a);
            push_dec(out, *k);
            out.push(0x2c);
            out.push(0x22);
            out.push(0x63);
            out.push(0x68);
            out.push(0x69);
            out.push(0x6c);
            out.push(0x64);
            out.push(0x72);
            out.push(0x65);
            out.push(0x6e);
            out.push(0x22);
            out.push(0x3a);
            out.push(0x5b);
            let ghost base = old(out)@ + seq![0x7bu8, 0x22u8] + threshold_lit() + seq![
                0x22u8,
                0x3au8,
            ] + dec_of(*k as nat) + seq![0x2cu8, 0x22u8] + children_lit() + seq![
                0x22u8,
                0x3au8,
                0x5bu8,
            ];
            proof {
                assert(out@ =~= base);
                lemma_views_of_len(cs@);
                assert(views_of(cs@).subrange(0, 0) =~= Seq::<SpecPolicy>::empty());
                assert(ser_json_list(views_of(cs@).subrange(0, 0)) =~= Seq::<u8>::empty());
                assert(out@ =~= base + ser_json_list(views_of(cs@).subrange(0, 0)));
            }
            let mut i: usize = 0;
            while i < cs.len()
                invariant
                    i <= cs.len(),
                    out@ == base + ser_json_list(views_of(cs@).subrange(0, i as int)),
                decreases cs.len() - i,
            {
                if i > 0 {
                    out.push(0x2c);
                }
                proof {
                    broadcast use vstd::std_specs::vec::axiom_vec_index_decreases;

                    assert(decreases_to!(*t => *cs));
                    assert(decreases_to!(*cs => cs@[i as int]));
                }
                push_tree_json(out, &cs[i]);
                proof {
                    lemma_ser_json_list_snoc(views_of(cs@), i as int);
                }
                i = i + 1;
            }
            out.push(0x5d);
            out.push(0x7d);
            proof {
                assert(views_of(cs@).subrange(0, cs@.len() as int) =~= views_of(cs@));
                assert(out@ =~= old(out)@ + ser_json(t.view()));
            }
        },
    }
}

/// Serializing a prefix one tree further appends the separator (past the
/// first tree) and that tree's structured text.
proof fn lemma_ser_json_list_snoc(cs: Seq<SpecPolicy>, i: int)
    requires
        0 <= i < cs.len(),
    ensures
        i == 0 ==> ser_json_list(cs.subrange(0, 1)) == ser_json(cs[0]),
        i > 0 ==> ser_json_list(cs.subrange(0, i + 1)) == ser_json_list(cs.subrange(0, i)) + seq![
            0x2cu8,
        ] + ser_json(cs[i]),
{
    if i == 0 {
        assert(cs.subrange(0, 1).len() == 1);
        assert(cs.subrange(0, 1)[0] == cs[0]);
    } else {
        lemma_ser_json_list_snoc_general(cs.subrange(0, i + 1));
        assert(cs.subrange(0, i + 1).drop_last() =~= cs.subrange(0, i));
        assert(cs.subrange(0, i + 1).last() == cs[i]);
    }
}

/// For two or more trees, the structured text of the whole is the text of
/// all but the last, the separator, and the last tree's text.
proof fn lemma_ser_json_list_snoc_general(cs: Seq<SpecPolicy>)
    requires
        cs.len() >= 2,
    ensures
        ser_json_list(cs) == ser_json_list(cs.drop_last()) + seq![0x2cu8] + ser_json(cs.last()),
    decreases cs.len(),
{
    if cs.len() == 2 {
        assert(cs.drop_first().len() == 1);
        assert(cs.drop_first()[0] == cs[1]);
        assert(cs.drop_last().len() == 1);
        assert(cs.drop_last()[0] == cs[0]);
        assert(ser_json_list(cs.drop_last()) == ser_json(cs[0]));
    } else {
        lemma_ser_json_list_snoc_general(cs.drop_first());
        assert(cs.drop_first().drop_last() =~= cs.drop_last().drop_first());
        assert(cs.drop_first().last() == cs.last());
        assert(cs.drop_last()[0] == cs[0]);
        assert(cs.drop_last().len() >= 2);
        assert(ser_json_list(cs.drop_last()) == ser_json(cs[0]) + seq![0x2cu8] + ser_json_list(
            cs.drop_last().drop_first(),
        ));
        assert(ser_json_list(cs) == ser_json(cs[0]) + seq![0x2cu8] + ser_json_list(
            cs.drop_first(),
        ));
        assert(ser_json_list(cs) =~= ser_json_list(cs.drop_last()) + seq![0x2cu8] + ser_json(
            cs.last(),
        ));
    }
}

/// Serializing a prefix one tree further appends the separator (past the
/// first tree) and that tree's text.
proof fn lemma_ser_list_snoc(cs: Seq<SpecPolicy>, i: int)
    requires
        0 <= i < cs.len(),
    ensures
        i == 0 ==> ser_list(cs.subrange(0, 1)) == ser(cs[0]),
        i > 0 ==> ser_list(cs.subrange(0, i + 1)) == ser_list(cs.subrange(0, i)) + seq![
            0x2cu8,
            0x20u8,
        ] + ser(cs[i]),
{
    if i == 0 {
        assert(cs.subrange(0, 1).len() == 1);
        assert(cs.subrange(0, 1)[0] == cs[0]);
    } else {
        lemma_ser_list_snoc_general(cs.subrange(0, i + 1));
        assert(cs.subrange(0, i + 1).drop_last() =~= cs.subrange(0, i));
        assert(cs.subrange(0, i + 1).last() == cs[i]);
    }
}

/// For two or more trees, the text of the whole is the text of all but the
/// last, the separator, and the last tree's text.
proof fn lemma_ser_list_snoc_general(cs: Seq<SpecPolicy>)
    requires
        cs.len() >= 2,
    ensures
        ser_list(cs) == ser_list(cs.drop_last()) + seq![0x2cu8, 0x20u8] + ser(cs.last()),
    decreases cs.len(),
{
    if cs.len() == 2 {
        assert(cs.drop_first().len() == 1);
        assert(cs.drop_first()[0] == cs[1]);
        assert(cs.drop_last().len() == 1);
        assert(cs.drop_last()[0] == cs[0]);
        assert(ser_list(cs.drop_last()) == ser(cs[0]));
    } else {
        lemma_ser_list_snoc_general(cs.drop_first());
        assert(cs.drop_first().drop_last() =~= cs.drop_last().drop_first());
        assert(cs.drop_first().last() == cs.last());
        assert(cs.drop_last()[0] == cs[0]);
        assert(cs.drop_last().len() >= 2);
        assert(ser_list(cs.drop_last()) == ser(cs[0]) + seq![0x2cu8, 0x20u8] + ser_list(
            cs.drop_last().drop_first(),
        ));
        assert(ser_list(cs) == ser(cs[0]) + seq![0x2cu8, 0x20u8] + ser_list(cs.drop_first()));
        assert(ser_list(cs) =~= ser_list(cs.drop_last()) + seq![0x2cu8, 0x20u8] + ser(cs.last()));
    }
}

/// The canonical human-dialect text of a tree, for audit display and
/// semantic round trips.
pub fn serialize_policy(t: &PolicyTree) -> (r: Vec<u8>)
    ensures
        r@ == ser(t.view()),
{
    let mut out: Vec<u8> = Vec::new();
    push_tree(&mut out, t);
    out
}

/// The canonical structured text of a tree, for trees whose leaves the human
/// dialect cannot write.
pub fn serialize_policy_json(t: &PolicyTree) -> (r: Vec<u8>)
    ensures
        r@ == ser_json(t.view()),
{
    let mut out: Vec<u8> = Vec::new();
    push_tree_json(&mut out, t);
    out
}

} // verus!
