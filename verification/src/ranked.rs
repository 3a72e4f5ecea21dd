//! The unassigned literals by activity: an ordered set of pairs of
//! activity and literal, from which the branching heuristic takes the
//! greatest.

use crate::engine::{score_of, TfPair};
use crate::bitset::BitSetT;
use crate::order::pair_le;
use crate::sat::lit_var;
use std::collections::BTreeSet;
use vstd::prelude::*;

verus! {

/// Whether the set holds exactly the literals of unassigned variables,
/// each with its activity.
#[verifier::opaque]
pub open spec fn ranked_ok(
    set: Set<(u128, isize)>,
    scores: Seq<TfPair<u128>>,
    unassigned: Set<nat>,
) -> bool {
    forall|s: u128, l: isize| #[trigger]
        set.contains((s, l)) <==> l != 0 && unassigned.contains(lit_var(l as int)) && lit_var(
            l as int,
        ) < scores.len() && s == score_of(scores, l as int)
}

/// The two pairs of a variable: its positive and its negative literal,
/// each with its activity.
pub open spec fn pos_pair(scores: Seq<TfPair<u128>>, v: nat) -> (u128, isize) {
    (scores[v as int].first, v as isize)
}

/// The pair of the negative literal of a variable.
pub open spec fn neg_pair(scores: Seq<TfPair<u128>>, v: nat) -> (u128, isize) {
    (scores[v as int].second, (-(v as int)) as isize)
}

/// An empty set ranks no literal where no variable is unassigned.
pub proof fn lemma_ranked_none(scores: Seq<TfPair<u128>>)
    ensures
        ranked_ok(Set::<(u128, isize)>::empty(), scores, Set::<nat>::empty()),
{
    reveal(ranked_ok);
}

/// Without the two pairs of a variable the set ranks the literals of
/// the other unassigned variables.
pub proof fn lemma_ranked_without(
    set: Set<(u128, isize)>,
    scores: Seq<TfPair<u128>>,
    unassigned: Set<nat>,
    v: nat,
)
    requires
        ranked_ok(set, scores, unassigned),
        1 <= v <= isize::MAX,
        v < scores.len(),
    ensures
        ranked_ok(
            set.remove(pos_pair(scores, v)).remove(neg_pair(scores, v)),
            scores,
            unassigned.remove(v),
        ),
{
    reveal(ranked_ok);
    let left = set.remove(pos_pair(scores, v)).remove(neg_pair(scores, v));
    assert forall|s: u128, l: isize| #[trigger]
        left.contains((s, l)) <==> l != 0 && unassigned.remove(v).contains(lit_var(l as int))
            && lit_var(l as int) < scores.len() && s == score_of(scores, l as int) by {
        assert(set.contains((s, l)) <==> l != 0 && unassigned.contains(lit_var(l as int))
            && lit_var(l as int) < scores.len() && s == score_of(scores, l as int));
        if lit_var(l as int) == v {
            assert(l == v as isize || l == (-(v as int)) as isize);
        }
    }
}

/// With the two pairs of a variable the set ranks its literals too.
pub proof fn lemma_ranked_with(
    set: Set<(u128, isize)>,
    scores: Seq<TfPair<u128>>,
    unassigned: Set<nat>,
    v: nat,
)
    requires
        ranked_ok(set, scores, unassigned),
        1 <= v <= isize::MAX,
        v < scores.len(),
    ensures
        ranked_ok(
            set.insert(pos_pair(scores, v)).insert(neg_pair(scores, v)),
            scores,
            unassigned.insert(v),
        ),
{
    reveal(ranked_ok);
    let more = set.insert(pos_pair(scores, v)).insert(neg_pair(scores, v));
    assert forall|s: u128, l: isize| #[trigger]
        more.contains((s, l)) <==> l != 0 && unassigned.insert(v).contains(lit_var(l as int))
            && lit_var(l as int) < scores.len() && s == score_of(scores, l as int) by {
        assert(set.contains((s, l)) <==> l != 0 && unassigned.contains(lit_var(l as int))
            && lit_var(l as int) < scores.len() && s == score_of(scores, l as int));
        if lit_var(l as int) == v {
            assert(l == v as isize || l == (-(v as int)) as isize);
        }
    }
}

/// The set ranks the literals under longer tables of activities that
/// agree with the old ones as far as those reached.
pub proof fn lemma_ranked_grown(
    set: Set<(u128, isize)>,
    scores: Seq<TfPair<u128>>,
    longer: Seq<TfPair<u128>>,
    unassigned: Set<nat>,
)
    requires
        ranked_ok(set, scores, unassigned),
        scores.len() <= longer.len(),
        forall|v: int| 0 <= v < scores.len() ==> longer[v] == scores[v],
        forall|v: nat| unassigned.contains(v) ==> v < scores.len(),
    ensures
        ranked_ok(set, longer, unassigned),
{
    reveal(ranked_ok);
    assert forall|s: u128, l: isize| #[trigger]
        set.contains((s, l)) <==> l != 0 && unassigned.contains(lit_var(l as int)) && lit_var(
            l as int,
        ) < longer.len() && s == score_of(longer, l as int) by {
        assert(set.contains((s, l)) <==> l != 0 && unassigned.contains(lit_var(l as int))
            && lit_var(l as int) < scores.len() && s == score_of(scores, l as int));
    }
}

/// The set ranks the literals as long as the activities of the
/// literals of unassigned variables and the unassigned variables are
/// the same.
pub proof fn lemma_ranked_same(
    set: Set<(u128, isize)>,
    scores: Seq<TfPair<u128>>,
    other: Seq<TfPair<u128>>,
    unassigned: Set<nat>,
)
    requires
        ranked_ok(set, scores, unassigned),
        scores.len() == other.len(),
        forall|v: int| 0 <= v < scores.len() && unassigned.contains(v as nat) ==> other[v] == scores[v],
    ensures
        ranked_ok(set, other, unassigned),
{
    reveal(ranked_ok);
    assert forall|s: u128, l: isize| #[trigger]
        set.contains((s, l)) <==> l != 0 && unassigned.contains(lit_var(l as int)) && lit_var(
            l as int,
        ) < other.len() && s == score_of(other, l as int) by {
        assert(set.contains((s, l)) <==> l != 0 && unassigned.contains(lit_var(l as int))
            && lit_var(l as int) < scores.len() && s == score_of(scores, l as int));
    }
}

/// The greatest pair of the set is the literal that the heuristic
/// picks: no literal of an unassigned variable has a higher activity,
/// nor the same with a higher number.
pub proof fn lemma_greatest_ranks(
    set: Set<(u128, isize)>,
    scores: Seq<TfPair<u128>>,
    unassigned: Set<nat>,
    m: (u128, isize),
    x: int,
)
    requires
        ranked_ok(set, scores, unassigned),
        set.contains(m),
        forall|p: (u128, isize)| set.contains(p) ==> pair_le(p, m),
        x != 0,
        unassigned.contains(lit_var(x)),
        forall|v: nat| unassigned.contains(v) ==> 1 <= v <= isize::MAX && v < scores.len(),
    ensures
        m.1 != 0,
        unassigned.contains(lit_var(m.1 as int)),
        crate::engine::ranks_above(scores, m.1 as int, x),
{
    reveal(ranked_ok);
    assert(set.contains((m.0, m.1)));
    let v = lit_var(x);
    let xi: isize = x as isize;
    assert(xi as int == x);
    assert(set.contains((score_of(scores, x), xi)));
    assert(pair_le((score_of(scores, x), xi), m));
}

/// Where the set is empty no variable above zero is unassigned.
pub proof fn lemma_none_ranked(
    set: Set<(u128, isize)>,
    scores: Seq<TfPair<u128>>,
    unassigned: Set<nat>,
    v: nat,
)
    requires
        ranked_ok(set, scores, unassigned),
        set == Set::<(u128, isize)>::empty(),
        forall|u: nat| unassigned.contains(u) ==> 1 <= u <= isize::MAX && u < scores.len(),
    ensures
        !unassigned.contains(v),
{
    reveal(ranked_ok);
    if unassigned.contains(v) {
        assert(set.contains((score_of(scores, v as int), v as isize)));
    }
}

/// Calls `BTreeSet::last` of the standard library. The claim is what its
/// documentation says, with the order that it documents for pairs: the
/// pair that comes back is in the set and no pair of the set comes
/// after it, and none comes back from an empty set.
#[verifier::external_body]
pub(crate) fn greatest(set: &BTreeSet<(u128, isize)>) -> (r: Option<(u128, isize)>)
    ensures
        match r {
            Some(m) => set@.contains(m) && forall|x: (u128, isize)|
                set@.contains(x) ==> pair_le(x, m),
            None => set@ == Set::<(u128, isize)>::empty(),
        },
{
    set.last().copied()
}

/// Puts the literal with its activity into the set.
pub(crate) fn put(set: &mut BTreeSet<(u128, isize)>, score: u128, literal: isize)
    ensures
        final(set)@ == old(set)@.insert((score, literal)),
{
    proof {
        crate::order::lemma_pairs_usable();
    }
    let _ = set.insert((score, literal));
}

/// Takes the literal with its activity out of the set.
pub(crate) fn take(set: &mut BTreeSet<(u128, isize)>, score: u128, literal: isize)
    ensures
        final(set)@ == old(set)@.remove((score, literal)),
{
    proof {
        crate::order::lemma_pairs_usable();
    }
    let pair = (score, literal);
    let _ = set.remove(&pair);
}

/// Puts both literals of the variable, each with its activity, into
/// the set.
pub(crate) fn rank(set: &mut BTreeSet<(u128, isize)>, scores: &Vec<TfPair<u128>>, var: usize)
    requires
        1 <= var <= isize::MAX,
        var < scores@.len(),
    ensures
        final(set)@ == old(set)@.insert(pos_pair(scores@, var as nat)).insert(
            neg_pair(scores@, var as nat),
        ),
{
    let number: isize = var as isize;
    put(set, scores[var].first, number);
    put(set, scores[var].second, -number);
}

/// Takes both literals of the variable, each with its activity, out of
/// the set.
pub(crate) fn unrank(set: &mut BTreeSet<(u128, isize)>, scores: &Vec<TfPair<u128>>, var: usize)
    requires
        1 <= var <= isize::MAX,
        var < scores@.len(),
    ensures
        final(set)@ == old(set)@.remove(pos_pair(scores@, var as nat)).remove(
            neg_pair(scores@, var as nat),
        ),
{
    let number: isize = var as isize;
    take(set, scores[var].first, number);
    take(set, scores[var].second, -number);
}

/// Makes the set anew from the activities: the literals of the
/// unassigned variables, each with its activity.
pub(crate) fn rerank<B: BitSetT>(
    set: &mut BTreeSet<(u128, isize)>,
    scores: &Vec<TfPair<u128>>,
    unassigned: &B,
)
    requires
        unassigned.wf(),
        forall|v: nat| unassigned@.contains(v) ==> 1 <= v <= isize::MAX && v < scores@.len(),
    ensures
        ranked_ok(final(set)@, scores@, unassigned@),
{
    set.clear();
    let vars = unassigned.iter();
    let mut i: usize = 0;
    proof {
        lemma_ranked_none(scores@);
        crate::bitset::lemma_listed_none(vars@);
    }
    while i < vars.len()
        invariant
            i <= vars@.len(),
            crate::fixed_bitset::ascending_listing(vars@, unassigned@),
            forall|v: nat| unassigned@.contains(v) ==> 1 <= v <= isize::MAX && v < scores@.len(),
            ranked_ok(set@, scores@, crate::bitset::listed(vars@, i as int)),
        decreases vars@.len() - i,
    {
        let v: usize = vars[i];
        let ghost before = set@;
        proof {
            assert(unassigned@.contains(vars@[i as int] as nat));
        }
        rank(set, scores, v);
        proof {
            lemma_ranked_with(before, scores@, crate::bitset::listed(vars@, i as int), v as nat);
            crate::bitset::lemma_listed_step(vars@, i as int);
        }
        i = i + 1;
    }
    proof {
        crate::bitset::lemma_listed_all(vars@, unassigned@);
    }
}

} // verus!
