//! The policy tree: a threshold structure over attribute predicates, its
//! mathematical model, well-formedness, and the satisfaction evaluator.

use vstd::prelude::*;
use crate::scan::bytes_eq;

verus! {

/// The two textual dialects a policy may be written in.
#[derive(Clone, Copy, PartialEq, Eq, Structural, Debug)]
pub enum PolicyDialect {
    Json,
    Human,
}

/// Why a policy text was rejected.
#[derive(Clone, Copy, PartialEq, Eq, Structural, Debug)]
pub enum PolicyParseError {
    /// The text does not follow the dialect's grammar.
    Malformed,
    /// A threshold node asks for `k` outside `[1, len(children)]`.
    InvalidThreshold,
    /// The text asks for a dialect the engine does not speak.
    UnsupportedDialect,
}

/// Mathematical model of a policy tree; every contract speaks of this form.
pub enum SpecPolicy {
    Leaf(Seq<u8>),
    Threshold(nat, Seq<SpecPolicy>),
}

/// A parsed policy tree. `Leaf` holds an attribute predicate; `Threshold(k,
/// children)` is satisfied when at least `k` children are satisfied.
pub enum PolicyTree {
    Leaf(Vec<u8>),
    Threshold(usize, Vec<PolicyTree>),
}

impl PolicyTree {
    /// The model of this tree.
    pub open spec fn view(&self) -> SpecPolicy
        decreases self,
    {
        match self {
            PolicyTree::Leaf(p) => SpecPolicy::Leaf(p@),
            PolicyTree::Threshold(k, cs) => SpecPolicy::Threshold(*k as nat, views_of(cs@)),
        }
    }
}

/// The models of a sequence of trees, in order.
pub open spec fn views_of(cs: Seq<PolicyTree>) -> Seq<SpecPolicy>
    decreases cs,
{
    if cs.len() == 0 {
        Seq::empty()
    } else {
        views_of(cs.drop_last()).push(cs.last().view())
    }
}

pub proof fn lemma_views_of_len(cs: Seq<PolicyTree>)
    ensures
        views_of(cs).len() == cs.len(),
        forall|i: int| 0 <= i < cs.len() ==> views_of(cs)[i] == cs[i].view(),
    decreases cs,
{
    if cs.len() > 0 {
        lemma_views_of_len(cs.drop_last());
    }
}

pub proof fn lemma_views_of_push(cs: Seq<PolicyTree>, t: PolicyTree)
    ensures
        views_of(cs.push(t)) == views_of(cs).push(t.view()),
{
    assert(cs.push(t).drop_last() =~= cs);
    assert(cs.push(t).last() == t);
}

/// Every node of the tree asks for a threshold its children can meet:
/// `1 <= k <= len(children)`.
pub open spec fn wf(t: SpecPolicy) -> bool
    decreases t,
{
    match t {
        SpecPolicy::Leaf(_) => true,
        SpecPolicy::Threshold(k, cs) => 1 <= k <= cs.len() && wf_all(cs),
    }
}

/// Well-formedness of every tree in a sequence.
pub open spec fn wf_all(cs: Seq<SpecPolicy>) -> bool
    decreases cs,
{
    cs.len() == 0 || (wf(cs.first()) && wf_all(cs.drop_first()))
}

/// Whether `attrs` satisfies the policy `t`: a leaf must be present in
/// `attrs`; a threshold node needs at least `k` satisfied children.
pub open spec fn sat(t: SpecPolicy, attrs: Seq<Seq<u8>>) -> bool
    decreases t,
{
    match t {
        SpecPolicy::Leaf(p) => attrs.contains(p),
        SpecPolicy::Threshold(k, cs) => count_sat(cs, attrs) >= k,
    }
}

/// How many trees of `cs` are satisfied by `attrs`.
pub open spec fn count_sat(cs: Seq<SpecPolicy>, attrs: Seq<Seq<u8>>) -> nat
    decreases cs,
{
    if cs.len() == 0 {
        0
    } else {
        count_sat(cs.drop_last(), attrs) + if sat(cs.last(), attrs) {
            1nat
        } else {
            0nat
        }
    }
}

pub proof fn lemma_count_sat_le(cs: Seq<SpecPolicy>, attrs: Seq<Seq<u8>>)
    ensures
        count_sat(cs, attrs) <= cs.len(),
    decreases cs,
{
    if cs.len() > 0 {
        lemma_count_sat_le(cs.drop_last(), attrs);
    }
}

pub proof fn lemma_count_sat_push(cs: Seq<SpecPolicy>, c: SpecPolicy, attrs: Seq<Seq<u8>>)
    ensures
        count_sat(cs.push(c), attrs) == count_sat(cs, attrs) + if sat(c, attrs) {
            1nat
        } else {
            0nat
        },
{
    assert(cs.push(c).drop_last() =~= cs);
    assert(cs.push(c).last() == c);
}

/// Satisfaction of a threshold node is monotonic: appending any further
/// satisfied children never flips the verdict from true to false.
pub proof fn lemma_threshold_monotonic_many(
    k: nat,
    cs: Seq<SpecPolicy>,
    more: Seq<SpecPolicy>,
    attrs: Seq<Seq<u8>>,
)
    requires
        sat(SpecPolicy::Threshold(k, cs), attrs),
        forall|i: int| 0 <= i < more.len() ==> sat(#[trigger] more[i], attrs),
    ensures
        sat(SpecPolicy::Threshold(k, cs + more), attrs),
    decreases more.len(),
{
    if more.len() == 0 {
        assert(cs + more =~= cs);
    } else {
        lemma_threshold_monotonic(k, cs, more.first(), attrs);
        assert forall|i: int| 0 <= i < more.drop_first().len() implies sat(
            #[trigger] more.drop_first()[i],
            attrs,
        ) by {
            assert(sat(more[i + 1], attrs));
        }
        lemma_threshold_monotonic_many(k, cs.push(more.first()), more.drop_first(), attrs);
        assert(cs.push(more.first()) + more.drop_first() =~= cs + more);
    }
}

/// Satisfaction of a threshold node is monotonic: appending a further
/// satisfied child never flips the verdict from true to false.
pub proof fn lemma_threshold_monotonic(
    k: nat,
    cs: Seq<SpecPolicy>,
    c: SpecPolicy,
    attrs: Seq<Seq<u8>>,
)
    requires
        sat(SpecPolicy::Threshold(k, cs), attrs),
        sat(c, attrs),
    ensures
        sat(SpecPolicy::Threshold(k, cs.push(c)), attrs),
{
    lemma_count_sat_push(cs, c, attrs);
}

/// The count of satisfied trees reaches the whole length exactly when every
/// tree is satisfied, and reaches one exactly when some tree is satisfied.
pub proof fn lemma_count_sat_bounds(cs: Seq<SpecPolicy>, attrs: Seq<Seq<u8>>)
    ensures
        count_sat(cs, attrs) == cs.len() <==> (forall|i: int|
            0 <= i < cs.len() ==> sat(#[trigger] cs[i], attrs)),
        count_sat(cs, attrs) >= 1 <==> (exists|i: int|
            0 <= i < cs.len() && sat(#[trigger] cs[i], attrs)),
    decreases cs,
{
    lemma_count_sat_le(cs, attrs);
    if cs.len() > 0 {
        let pre = cs.drop_last();
        lemma_count_sat_bounds(pre, attrs);
        lemma_count_sat_le(pre, attrs);
        assert(forall|i: int| 0 <= i < pre.len() ==> pre[i] == cs[i]);
        if count_sat(cs, attrs) == cs.len() {
            assert forall|i: int| 0 <= i < cs.len() implies sat(#[trigger] cs[i], attrs) by {
                if i < cs.len() - 1 {
                    assert(sat(pre[i], attrs));
                }
            }
        }
        if count_sat(cs, attrs) >= 1 {
            if sat(cs.last(), attrs) {
                assert(sat(cs[cs.len() - 1], attrs));
            } else {
                let w = choose|i: int| 0 <= i < pre.len() && sat(#[trigger] pre[i], attrs);
                assert(sat(cs[w], attrs));
            }
        }
        if exists|i: int| 0 <= i < cs.len() && sat(#[trigger] cs[i], attrs) {
            let w = choose|i: int| 0 <= i < cs.len() && sat(#[trigger] cs[i], attrs);
            if w < cs.len() - 1 {
                assert(sat(pre[w], attrs));
            }
        }
    }
}

/// The `AND` reading of a threshold node: with `k` equal to the number of
/// children, the node is satisfied exactly when every child is.
pub proof fn lemma_and_semantics(k: nat, cs: Seq<SpecPolicy>, attrs: Seq<Seq<u8>>)
    requires
        k == cs.len(),
    ensures
        sat(SpecPolicy::Threshold(k, cs), attrs) <==> (forall|i: int|
            0 <= i < cs.len() ==> sat(#[trigger] cs[i], attrs)),
{
    lemma_count_sat_bounds(cs, attrs);
    lemma_count_sat_le(cs, attrs);
}

/// The `OR` reading of a threshold node: with `k` equal to one, the node is
/// satisfied exactly when at least one child is.
pub proof fn lemma_or_semantics(cs: Seq<SpecPolicy>, attrs: Seq<Seq<u8>>)
    ensures
        sat(SpecPolicy::Threshold(1, cs), attrs) <==> (exists|i: int|
            0 <= i < cs.len() && sat(#[trigger] cs[i], attrs)),
{
    lemma_count_sat_bounds(cs, attrs);
}

/// Satisfaction depends only on which attributes are held, never on their
/// order or multiplicity: two attribute sequences with the same members
/// satisfy exactly the same policies.
pub proof fn lemma_sat_membership(t: SpecPolicy, a: Seq<Seq<u8>>, b: Seq<Seq<u8>>)
    requires
        forall|x: Seq<u8>| a.contains(x) <==> b.contains(x),
    ensures
        sat(t, a) == sat(t, b),
    decreases t, 0nat,
{
    match t {
        SpecPolicy::Leaf(p) => {
            assert(a.contains(p) <==> b.contains(p));
        },
        SpecPolicy::Threshold(k, cs) => {
            lemma_count_sat_membership(cs, a, b);
        },
    }
}

/// The count of satisfied trees depends only on the attribute membership.
proof fn lemma_count_sat_membership(cs: Seq<SpecPolicy>, a: Seq<Seq<u8>>, b: Seq<Seq<u8>>)
    requires
        forall|x: Seq<u8>| a.contains(x) <==> b.contains(x),
    ensures
        count_sat(cs, a) == count_sat(cs, b),
    decreases cs, 1nat,
{
    if cs.len() > 0 {
        lemma_sat_membership(cs.last(), a, b);
        lemma_count_sat_membership(cs.drop_last(), a, b);
    }
}

/// Whether the attribute set holds the exact byte string `p`.
pub fn contains_bytes(attrs: &Vec<Vec<u8>>, p: &Vec<u8>) -> (r: bool)
    ensures
        r == attrs.deep_view().contains(p@),
{
    let mut i: usize = 0;
    while i < attrs.len()
        invariant
            i <= attrs.len(),
            forall|j: int| 0 <= j < i ==> attrs.deep_view()[j] != p@,
        decreases attrs.len() - i,
    {
        proof {
            assert(attrs.deep_view()[i as int] == attrs@[i as int]@);
        }
        if bytes_eq(&attrs[i], p) {
            return true;
        }
        i = i + 1;
    }
    proof {
        assert forall|j: int| 0 <= j < attrs.deep_view().len() implies attrs.deep_view()[j] != p@
        by {}
    }
    false
}

/// Deterministic satisfaction check of `tree` against `attrs`: pure, total,
/// and free of any order- or environment-dependence.
#[verifier::loop_isolation(false)]
pub fn evaluate(tree: &PolicyTree, attrs: &Vec<Vec<u8>>) -> (r: bool)
    ensures
        r == sat(tree.view(), attrs.deep_view()),
    decreases *tree,
{
    match tree {
        PolicyTree::Leaf(p) => contains_bytes(attrs, p),
        PolicyTree::Threshold(k, cs) => {
            let mut count: usize = 0;
            let mut i: usize = 0;
            while i < cs.len()
                invariant
                    i <= cs.len(),
                    count <= i,
                    count == count_sat(views_of(cs@.subrange(0, i as int)), attrs.deep_view()),
                decreases cs.len() - i,
            {
                proof {
                    broadcast use vstd::std_specs::vec::axiom_vec_index_decreases;

                    assert(decreases_to!(*tree => *cs));
                    assert(decreases_to!(*cs => cs@[i as int]));
                }
                let child_ok = evaluate(&cs[i], attrs);
                proof {
                    let sub1 = cs@.subrange(0, i + 1int);
                    assert(sub1.drop_last() =~= cs@.subrange(0, i as int));
                    assert(sub1.last() == cs@[i as int]);
                    lemma_views_of_len(sub1);
                    assert(views_of(sub1).drop_last() =~= views_of(cs@.subrange(0, i as int)))
                        by {
                        lemma_views_of_len(cs@.subrange(0, i as int));
                    }
                }
                if child_ok {
                    count = count + 1;
                }
                i = i + 1;
            }
            proof {
                assert(cs@.subrange(0, cs@.len() as int) =~= cs@);
            }
            count >= *k
        },
    }
}

} // verus!
