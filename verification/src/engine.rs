//! The search engine: the clause table, the watch index, the trail, unit
//! propagation, conflict analysis and the activity heuristics.

use crate::analysis::{has_top, tops_before};
use crate::bitset::BitSetT;
use crate::fixed_bitset::{lemma_count_done, lemma_count_step, within};
use crate::luby::Luby;
use crate::pool::Pool;
use crate::sat::{
    clause_ok, clause_vars, formula_holds, formula_ok, formula_vars, has_empty, ingest_clause,
    kept, lemma_clause_vars_range, lemma_formula_push, lemma_formula_vars_push,
    lemma_kept_equivalent, lemma_kept_members, lemma_same_lits_vars, lemma_taut_holds, lit_holds,
    lit_in, lit_var, model_of, pool_wf, take_bitset, tautology, unsatisfiable, Clause, Formula,
    Literal, SatResult, StepResult,
};
use crate::settle;
use crate::tombstone::TombStone;
use crate::trace;
use crate::trail::{
    db_covers, db_follows, entry_val, entry_var, false_at, falsified, lemma_resolve_step,
    lemma_same_lits_holds, originals_hold, reasons_ok, resolvent, shape_holds, shape_of, shapes,
    trail_ok, Reason, Shape, TrailEntry,
};
use itertools::Itertools;
use rand_pcg::Pcg64;
use crate::ranked::{self, ranked_ok};
use std::collections::BTreeMap;
use std::collections::BTreeSet;
use vstd::prelude::*;
use vstd::std_specs::iter::IteratorSpec;

verus! {

/// The most clauses that the table takes: a quarter of what a `usize`
/// counts, so that a slot number, with the room that the sets keep
/// around it, can always be counted.
pub const MAX_CLAUSES: usize = usize::MAX / 4;

/// An activity of one, in fixed point with 32 fractional bits.
pub const SCORE_ONE: u128 = 0x1_0000_0000;

/// The factor by which activities shrink when one grows past the cap.
pub const SCORE_SCALE: u128 = 100_000_000_000_000_000_000;

/// The largest activity that is kept as it is.
pub const SCORE_CAP: u128 = 429_496_729_600_000_000_000_000_000_000;

/// A pair indexed by a truth value.
pub struct TfPair<T> {
    pub first: T,
    pub second: T,
}

impl<T> TfPair<T> {
    /// The first of the pair for `true`, the second for `false`.
    pub open spec fn pick(self, index: bool) -> T {
        if index {
            self.first
        } else {
            self.second
        }
    }

    /// The first of the pair for `true`, the second for `false`.
    pub fn get(&self, index: bool) -> (r: &T)
        ensures
            *r == self.pick(index),
    {
        if index {
            &self.first
        } else {
            &self.second
        }
    }

    /// Write access to the first of the pair for `true`, to the second
    /// for `false`; the other one stays.
    pub fn get_mut(&mut self, index: bool) -> (r: &mut T)
        ensures
            *r == old(self).pick(index),
            final(self).pick(index) == *final(r),
            final(self).pick(!index) == old(self).pick(!index),
    {
        if index {
            &mut self.first
        } else {
            &mut self.second
        }
    }
}

/// What the search is to react to.
#[derive(Clone, Copy, Debug)]
pub enum Action {
    /// The formula is known to have no model.
    Unsat,
    /// Literals were forced and nothing is left to force.
    FinishedUnitPropagation,
    /// The literal is to be decided at the current level.
    Continue(Literal),
    /// Every literal of the clause in this slot is false.
    Contradiction(usize),
}

/// What became of a conflict.
#[derive(Clone, Copy)]
pub enum Backtracked {
    /// A clause was derived, stored in this slot and watched.
    Stored(usize),
    /// A clause was derived, but the clause table had no room for it.
    Full,
    /// The clause derived has every literal false at level zero: the
    /// formula has no model.
    Refuted,
}

/// What unit propagation came to.
#[derive(Clone, Copy)]
pub enum UnitPropagationResult {
    /// At least one literal was forced and nothing is left to force.
    FinishedUnitPropagation,
    /// Every literal of the clause at this index is false.
    Contradiction(usize),
    /// Nothing was ready to be forced.
    NothingToPropagate,
}

/// Whether some literal of the clause is true under the assignment bits
/// of the variables that are assigned.
pub open spec fn sat_under(s: Shape, assignments: Set<nat>, unassigned: Set<nat>) -> bool {
    exists|v: nat| #[trigger]
        s.vars.contains(v) && !unassigned.contains(v) && (assignments.contains(v) != s.negs.contains(
            v,
        ))
}

/// Whether `l` is the one literal of the clause whose variable is
/// unassigned while every other literal is false.
pub open spec fn unit_under(s: Shape, l: int, assignments: Set<nat>, unassigned: Set<nat>) -> bool {
    &&& lit_in(s.vars, s.negs, l)
    &&& unassigned.contains(lit_var(l))
    &&& forall|u: nat| #[trigger]
        s.vars.contains(u) && u != lit_var(l) ==> !unassigned.contains(u) && (assignments.contains(
            u,
        ) == s.negs.contains(u))
}

/// The assignment bits, the set of unassigned variables and the trail
/// tell the same story, and every variable is one of the formula's.
#[verifier::opaque]
pub open spec fn assign_ok(
    trail: Seq<TrailEntry>,
    pos: Seq<Option<usize>>,
    assignments: Set<nat>,
    unassigned: Set<nat>,
    all: Set<nat>,
) -> bool {
    &&& forall|i: int|
        0 <= i < trail.len() ==> assignments.contains(entry_var(#[trigger] trail[i])) == entry_val(
            trail[i],
        ) && all.contains(entry_var(trail[i]))
    &&& forall|v: nat| #[trigger]
        unassigned.contains(v) ==> all.contains(v) && pos[v as int] is None
    &&& forall|v: nat| #[trigger] all.contains(v) ==> 1 <= v < pos.len()
}

/// Every clause that is the reason of a trail entry is stored and counts
/// at least one such entry.
#[verifier::opaque]
pub open spec fn units_ok<B: BitSetT>(trail: Seq<TrailEntry>, clauses: Seq<TombStone<Clause<B>>>) -> bool {
    forall|i: int|
        0 <= i < trail.len() && (#[trigger] trail[i]).reason is ClauseIdx ==> {
            let k = trail[i].reason->ClauseIdx_0;
            k < clauses.len() && clauses[k as int].is_live() && clauses[k as int].live_value().num_units
                >= 1
        }
}

/// The table is within its limit and every stored clause is well formed
/// with an activity within the cap.
#[verifier::opaque]
pub open spec fn store_ok<B: BitSetT>(clauses: Seq<TombStone<Clause<B>>>) -> bool {
    &&& clauses.len() <= MAX_CLAUSES
    &&& forall|k: int|
        0 <= k < clauses.len() && (#[trigger] clauses[k]).is_live() ==> clauses[k].live_value().wf()
            && clauses[k].live_value().score <= SCORE_CAP
}

/// Every variable of a stored clause is one of the formula's and is
/// either unassigned or on the trail.
#[verifier::opaque]
pub open spec fn covered(
    sh: Seq<Option<Shape>>,
    pos: Seq<Option<usize>>,
    all: Set<nat>,
    unassigned: Set<nat>,
) -> bool {
    forall|k: int, u: nat|
        0 <= k < sh.len() && sh[k] is Some && #[trigger] sh[k].unwrap().vars.contains(u) ==> u
            < pos.len() && all.contains(u) && (unassigned.contains(u) || pos[u as int] is Some)
}

/// The freed slots form a chain from the head of the free list.
#[verifier::opaque]
pub open spec fn free_ok<B: BitSetT>(
    clauses: Seq<TombStone<Clause<B>>>,
    free: Seq<usize>,
    head: Option<usize>,
) -> bool {
    &&& free.no_duplicates()
    &&& head == if free.len() > 0 {
        Some(free[0])
    } else {
        None
    }
    &&& forall|j: int|
        0 <= j < free.len() ==> (#[trigger] free[j]) < clauses.len() && !clauses[free[j] as int].is_live()
            && clauses[free[j] as int].gen() < usize::MAX && clauses[free[j] as int].next_free()
            == if j + 1 < free.len() {
            Some(free[j + 1])
        } else {
            None
        }
}

/// Every key of the map is below `len`.
pub open spec fn keys_below(m: Map<usize, usize>, len: nat) -> bool {
    forall|k: usize| #[trigger] m.contains_key(k) ==> k < len
}

/// Every watcher names a slot of the table.
#[verifier::opaque]
pub open spec fn watch_ok(w: Seq<TfPair<BTreeMap<usize, usize>>>, len: nat) -> bool {
    forall|v: int|
        0 <= v < w.len() ==> keys_below((#[trigger] w[v]).first@, len) && keys_below(
            w[v].second@,
            len,
        )
}

/// The generation of each slot of the clause table.
pub open spec fn gens<B: BitSetT>(clauses: Seq<TombStone<Clause<B>>>) -> Seq<usize> {
    Seq::new(clauses.len(), |k: int| clauses[k].gen())
}

/// No watcher in the map is of a generation later than its slot's.
pub open spec fn gens_below(m: Map<usize, usize>, g: Seq<usize>) -> bool {
    forall|k: usize| #[trigger] m.contains_key(k) ==> k < g.len() && m[k] <= g[k as int]
}

/// No watcher is of a generation later than its slot's.
#[verifier::opaque]
pub open spec fn gens_ok(w: Seq<TfPair<BTreeMap<usize, usize>>>, g: Seq<usize>) -> bool {
    forall|v: int|
        0 <= v < w.len() ==> gens_below((#[trigger] w[v]).first@, g) && gens_below(w[v].second@, g)
}

/// Whether the literal `l` watches the clause in slot `k` as it is now
/// stored there.
pub open spec fn watching(
    w: Seq<TfPair<BTreeMap<usize, usize>>>,
    g: Seq<usize>,
    sh: Seq<Option<Shape>>,
    l: int,
    k: int,
) -> bool {
    &&& 0 <= k < g.len()
    &&& k < sh.len()
    &&& sh[k] is Some
    &&& watches(w, l, k as usize, g[k])
}

/// Whether the pair names the watched literals of the clause in slot
/// `k`: both are literals of the clause and watch it, and they are one
/// literal only where the clause has no other.
pub open spec fn pair_ok(
    w: Seq<TfPair<BTreeMap<usize, usize>>>,
    g: Seq<usize>,
    sh: Seq<Option<Shape>>,
    pair: (int, int),
    k: int,
) -> bool {
    &&& watching(w, g, sh, pair.0, k)
    &&& watching(w, g, sh, pair.1, k)
    &&& lit_in(sh[k].unwrap().vars, sh[k].unwrap().negs, pair.0)
    &&& lit_in(sh[k].unwrap().vars, sh[k].unwrap().negs, pair.1)
    &&& (pair.0 == pair.1 ==> forall|u: nat| #[trigger]
        sh[k].unwrap().vars.contains(u) ==> u == lit_var(pair.0))
}

/// The record of watched literals agrees with the watch index: a
/// recorded pair names the watched literals of its clause, and no other
/// literal watches the clause as it is now stored.
#[verifier::opaque]
pub open spec fn pairs_ok(
    w: Seq<TfPair<BTreeMap<usize, usize>>>,
    g: Seq<usize>,
    sh: Seq<Option<Shape>>,
    pairs: Seq<Option<(int, int)>>,
) -> bool {
    &&& pairs.len() == g.len()
    &&& sh.len() == g.len()
    &&& forall|k: int|
        0 <= k < pairs.len() && (#[trigger] pairs[k]) is Some ==> pair_ok(
            w,
            g,
            sh,
            pairs[k].unwrap(),
            k,
        )
    &&& forall|l: int, k: int| #[trigger]
        watching(w, g, sh, l, k) ==> pairs[k] is Some && (l == pairs[k].unwrap().0 || l
            == pairs[k].unwrap().1)
}

/// The literal of variable `v` with polarity `pol`.
pub open spec fn signed(v: int, pol: bool) -> int {
    if pol {
        v
    } else {
        -v
    }
}

/// Whether the literal `l` is among the first `n` of the literals.
pub open spec fn seen(lits: Seq<Literal>, n: int, l: int) -> bool {
    exists|j: int| 0 <= j < n && (#[trigger] lits[j]).as_int() == l
}

/// The occurrences of a literal after the clause in slot `idx` is noted
/// as present or as gone: the slot joins or leaves them where the
/// clause has the literal, `holds`, and they stay where it has not.
pub open spec fn noted(was: Set<nat>, holds: bool, idx: nat, present: bool) -> Set<nat> {
    if !holds {
        was
    } else if present {
        was.insert(idx)
    } else {
        was.remove(idx)
    }
}

/// Every set of the occurrence index is addressable.
#[verifier::opaque]
pub open spec fn by_var_ok<B: BitSetT>(b: Seq<TfPair<B>>) -> bool {
    forall|v: int| 0 <= v < b.len() ==> (#[trigger] b[v]).first.wf() && b[v].second.wf()
}

/// Every activity is within the cap.
#[verifier::opaque]
pub open spec fn scores_ok(s: Seq<TfPair<u128>>, inc: u128, cla_inc: u128) -> bool {
    &&& 1 <= inc <= SCORE_CAP
    &&& 1 <= cla_inc <= SCORE_CAP
    &&& forall|v: int| 0 <= v < s.len() ==> (#[trigger] s[v]).first <= SCORE_CAP && s[v].second <= SCORE_CAP
}

/// Changes the count of trail entries that the clause in slot `k`
/// justifies by one, up for `up` and down otherwise; a count at the edge
/// of its range stays.
pub(crate) fn count_unit<B: BitSetT>(clauses: &mut Vec<TombStone<Clause<B>>>, k: usize, up: bool)
    requires
        k < old(clauses)@.len(),
        old(clauses)@[k as int].is_live(),
    ensures
        final(clauses)@.len() == old(clauses)@.len(),
        forall|j: int|
            0 <= j < old(clauses)@.len() && j != k ==> final(clauses)@[j] == old(clauses)@[j],
        final(clauses)@[k as int] == TombStone::T(
            old(clauses)@[k as int].gen(),
            Clause {
                num_units: if up {
                    if old(clauses)@[k as int].live_value().num_units < usize::MAX {
                        (old(clauses)@[k as int].live_value().num_units + 1) as usize
                    } else {
                        old(clauses)@[k as int].live_value().num_units
                    }
                } else {
                    if old(clauses)@[k as int].live_value().num_units > 0 {
                        (old(clauses)@[k as int].live_value().num_units - 1) as usize
                    } else {
                        old(clauses)@[k as int].live_value().num_units
                    }
                },
                ..old(clauses)@[k as int].live_value()
            },
        ),
{
    let c = clauses[k].value_mut_exn();
    if up {
        if c.num_units < usize::MAX {
            c.num_units = c.num_units + 1;
        }
    } else {
        if c.num_units > 0 {
            c.num_units = c.num_units - 1;
        }
    }
}

/// The watchers of the literal of variable `var` with polarity `pol`.
pub open spec fn watchers(
    w: Seq<TfPair<BTreeMap<usize, usize>>>,
    var: int,
    pol: bool,
) -> Map<usize, usize> {
    w[var].pick(pol)@
}

/// Whether slot `ci` watches the literal `l` under generation `gen`.
pub open spec fn watches(
    w: Seq<TfPair<BTreeMap<usize, usize>>>,
    l: int,
    ci: usize,
    gen: usize,
) -> bool {
    &&& l != 0
    &&& lit_var(l) < w.len()
    &&& watchers(w, lit_var(l) as int, l > 0).contains_key(ci)
    &&& watchers(w, lit_var(l) as int, l > 0)[ci] == gen
}

/// The generation under which slot `ci` watches the literal, if it does.
pub(crate) fn watch_get(
    w: &Vec<TfPair<BTreeMap<usize, usize>>>,
    var: usize,
    pol: bool,
    ci: usize,
) -> (r: Option<usize>)
    requires
        var < w@.len(),
    ensures
        r == if watchers(w@, var as int, pol).contains_key(ci) {
            Some(watchers(w@, var as int, pol)[ci])
        } else {
            None
        },
{
    match w[var].get(pol).get(&ci) {
        Some(g) => Some(*g),
        None => None,
    }
}

/// Takes slot `ci` off the watchers of the literal and returns the
/// generation it was watching under.
pub(crate) fn watch_remove(
    w: &mut Vec<TfPair<BTreeMap<usize, usize>>>,
    var: usize,
    pol: bool,
    ci: usize,
    Ghost(len): Ghost<nat>,
) -> (r: Option<usize>)
    requires
        var < old(w)@.len(),
        watch_ok(old(w)@, len),
    ensures
        final(w)@.len() == old(w)@.len(),
        watch_ok(final(w)@, len),
        watchers(final(w)@, var as int, pol) == watchers(old(w)@, var as int, pol).remove(ci),
        watchers(final(w)@, var as int, !pol) == watchers(old(w)@, var as int, !pol),
        forall|v: int| 0 <= v < old(w)@.len() && v != var ==> final(w)@[v] == old(w)@[v],
        r == if watchers(old(w)@, var as int, pol).contains_key(ci) {
            Some(watchers(old(w)@, var as int, pol)[ci])
        } else {
            None
        },
{
    proof {
        reveal(watch_ok);
    }
    let ghost before = w@;
    let r = w[var].get_mut(pol).remove(&ci);
    proof {
        assert forall|v: int| 0 <= v < w@.len() implies keys_below((#[trigger] w@[v]).first@, len)
            && keys_below(w@[v].second@, len) by {
            assert(keys_below(before[v].first@, len) && keys_below(before[v].second@, len));
            if v == var {
                assert(w@[v].pick(pol)@ == before[v].pick(pol)@.remove(ci));
                assert(w@[v].pick(!pol)@ == before[v].pick(!pol)@);
            }
        }
    }
    r
}

/// Makes slot `ci` a watcher of the literal, under generation `gen`.
pub(crate) fn watch_insert(
    w: &mut Vec<TfPair<BTreeMap<usize, usize>>>,
    var: usize,
    pol: bool,
    ci: usize,
    gen: usize,
    Ghost(len): Ghost<nat>,
)
    requires
        var < old(w)@.len(),
        watch_ok(old(w)@, len),
        ci < len,
    ensures
        final(w)@.len() == old(w)@.len(),
        watch_ok(final(w)@, len),
        watchers(final(w)@, var as int, pol) == watchers(old(w)@, var as int, pol).insert(ci, gen),
        watchers(final(w)@, var as int, !pol) == watchers(old(w)@, var as int, !pol),
        forall|v: int| 0 <= v < old(w)@.len() && v != var ==> final(w)@[v] == old(w)@[v],
{
    proof {
        reveal(watch_ok);
    }
    let ghost before = w@;
    w[var].get_mut(pol).insert(ci, gen);
    proof {
        assert forall|v: int| 0 <= v < w@.len() implies keys_below((#[trigger] w@[v]).first@, len)
            && keys_below(w@[v].second@, len) by {
            assert(keys_below(before[v].first@, len) && keys_below(before[v].second@, len));
            if v == var {
                assert(w@[v].pick(pol)@ == before[v].pick(pol)@.insert(ci, gen));
                assert(w@[v].pick(!pol)@ == before[v].pick(!pol)@);
            }
        }
    }
}

/// The slots that watch the literal, in ascending order.
pub(crate) fn watch_keys(
    w: &Vec<TfPair<BTreeMap<usize, usize>>>,
    var: usize,
    pol: bool,
    Ghost(len): Ghost<nat>,
) -> (r: Vec<usize>)
    requires
        var < w@.len(),
        watch_ok(w@, len),
    ensures
        r@.to_set() == watchers(w@, var as int, pol).dom(),
        r@.no_duplicates(),
        forall|i: int| 0 <= i < r@.len() ==> (#[trigger] r@[i]) < len,
        forall|i: int, j: int| 0 <= i < j < r@.len() ==> (#[trigger] r@[i]) < (#[trigger] r@[j]),
{
    proof {
        reveal(watch_ok);
    }
    let m = w[var].get(pol);
    let mut out: Vec<usize> = Vec::new();
    proof {
        vstd::std_specs::btree::axiom_spec_keys_iter(m);
    }
    let ghost keys = m.keys().remaining().unref();
    for k in it: m.keys()
        invariant
            out@.len() == it.index(),
            it.seq().unref() == keys,
            forall|i: int| 0 <= i < out@.len() ==> out@[i] == *it.seq()[i],
    {
        out.push(*k);
    }
    proof {
        assert(out@ =~= keys);
        crate::order::lemma_keys_ascend(m.keys().remaining());
        assert forall|i: int, j: int| 0 <= i < j < out@.len() implies (#[trigger] out@[i]) < (
        #[trigger] out@[j]) by {
            assert(out@[i] == *m.keys().remaining()[i]);
            assert(out@[j] == *m.keys().remaining()[j]);
        }
        assert forall|i: int| 0 <= i < out@.len() implies (#[trigger] out@[i]) < len by {
            assert(out@.to_set().contains(out@[i]));
            assert(m@.contains_key(out@[i]));
            assert(keys_below(w@[var as int].first@, len) && keys_below(w@[var as int].second@, len));
        }
    }
    out
}

/// The activity of the literal `l`.
pub open spec fn score_of(scores: Seq<TfPair<u128>>, l: int) -> u128 {
    scores[lit_var(l) as int].pick(l > 0)
}

/// Whether the literal `a` is chosen before the literal `b`: by higher
/// activity, and among equals by the higher signed number.
pub open spec fn ranks_above(scores: Seq<TfPair<u128>>, a: int, b: int) -> bool {
    score_of(scores, a) > score_of(scores, b) || (score_of(scores, a) == score_of(scores, b) && a
        >= b)
}

/// The activity `x`, divided by the scale factor where `over` says that
/// an activity has grown past the cap.
pub open spec fn scaled(x: int, over: bool) -> int {
    if over {
        x / (SCORE_SCALE as int)
    } else {
        x
    }
}

/// The increment `inc`, divided by the scale factor where `over` says
/// that an activity has grown past the cap, but kept at one at least.
pub open spec fn scaled_inc(inc: u128, over: bool) -> int {
    if over && inc / SCORE_SCALE >= 1 {
        (inc / SCORE_SCALE) as int
    } else if over {
        1
    } else {
        inc as int
    }
}

/// Divides every activity and the increment by the scale factor, so
/// that the order of the activities is kept; the increment stays at
/// least one.
pub(crate) fn rescale_vsids(scores: &mut Vec<TfPair<u128>>, inc: &mut u128)
    requires
        *old(inc) >= 1,
    ensures
        final(scores)@.len() == old(scores)@.len(),
        forall|v: int|
            0 <= v < old(scores)@.len() ==> (#[trigger] final(scores)@[v]).first == old(
                scores,
            )@[v].first / SCORE_SCALE && final(scores)@[v].second == old(scores)@[v].second
                / SCORE_SCALE,
        *final(inc) == if *old(inc) / SCORE_SCALE >= 1 {
            *old(inc) / SCORE_SCALE
        } else {
            1
        },
{
    let n: usize = scores.len();
    let mut v: usize = 0;
    while v < n
        invariant
            v <= n,
            n == scores@.len(),
            n == old(scores)@.len(),
            forall|j: int|
                0 <= j < v ==> (#[trigger] scores@[j]).first == old(scores)@[j].first / SCORE_SCALE
                    && scores@[j].second == old(scores)@[j].second / SCORE_SCALE,
            forall|j: int| v <= j < n ==> scores@[j] == old(scores)@[j],
        decreases n - v,
    {
        let a: u128 = scores[v].first / SCORE_SCALE;
        let b: u128 = scores[v].second / SCORE_SCALE;
        scores.set(v, TfPair { first: a, second: b });
        v = v + 1;
    }
    let next: u128 = *inc / SCORE_SCALE;
    *inc = if next >= 1 {
        next
    } else {
        1
    };
}

/// The slot `was` with the activity of its clause, where it holds one,
/// exchanged for that of the clause in `now`.
pub open spec fn rescored<B: BitSetT>(was: TombStone<Clause<B>>, now: TombStone<Clause<B>>) -> TombStone<Clause<B>> {
    if was.is_live() {
        TombStone::T(was.gen(), Clause { score: now.live_value().score, ..was.live_value() })
    } else {
        was
    }
}

/// Divides the activity of every stored clause and the increment by the
/// scale factor; the increment stays at least one.
pub(crate) fn rescale_clause_activities<B: BitSetT>(clauses: &mut Vec<TombStone<Clause<B>>>, inc: &mut u128)
    requires
        *old(inc) >= 1,
    ensures
        final(clauses)@.len() == old(clauses)@.len(),
        forall|k: int|
            0 <= k < old(clauses)@.len() ==> (#[trigger] final(clauses)@[k]) == if old(
                clauses,
            )@[k].is_live() {
                TombStone::T(
                    old(clauses)@[k].gen(),
                    Clause {
                        score: old(clauses)@[k].live_value().score / SCORE_SCALE,
                        ..old(clauses)@[k].live_value()
                    },
                )
            } else {
                old(clauses)@[k]
            },
        *final(inc) == if *old(inc) / SCORE_SCALE >= 1 {
            *old(inc) / SCORE_SCALE
        } else {
            1
        },
{
    let n: usize = clauses.len();
    let mut k: usize = 0;
    while k < n
        invariant
            k <= n,
            n == clauses@.len(),
            n == old(clauses)@.len(),
            forall|j: int|
                0 <= j < k ==> (#[trigger] clauses@[j]) == if old(clauses)@[j].is_live() {
                    TombStone::T(
                        old(clauses)@[j].gen(),
                        Clause {
                            score: old(clauses)@[j].live_value().score / SCORE_SCALE,
                            ..old(clauses)@[j].live_value()
                        },
                    )
                } else {
                    old(clauses)@[j]
                },
            forall|j: int| k <= j < n ==> clauses@[j] == old(clauses)@[j],
        decreases n - k,
    {
        match clauses[k].value_mut() {
            Some(c) => {
                c.score = c.score / SCORE_SCALE;
            },
            None => {},
        }
        k = k + 1;
    }
    let next: u128 = *inc / SCORE_SCALE;
    *inc = if next >= 1 {
        next
    } else {
        1
    };
}

/// The level at which the variable `u` was assigned, if it is on the
/// trail.
pub open spec fn level_of(trail: Seq<TrailEntry>, pos: Seq<Option<usize>>, u: nat) -> Option<
    usize,
> {
    if u < pos.len() && pos[u as int] is Some && pos[u as int].unwrap() < trail.len() {
        Some(trail[pos[u as int].unwrap() as int].decision_level)
    } else {
        None
    }
}

/// The variables of `vars` that were assigned at `level`.
pub open spec fn vars_at_level(
    vars: Set<nat>,
    trail: Seq<TrailEntry>,
    pos: Seq<Option<usize>>,
    level: usize,
) -> Set<nat> {
    vars.filter(|u: nat| level_of(trail, pos, u) == Some(level))
}

/// Whether `top` is the highest level at which a variable of `vars` was
/// assigned, or zero where none was.
pub open spec fn highest(
    vars: Set<nat>,
    trail: Seq<TrailEntry>,
    pos: Seq<Option<usize>>,
    top: usize,
) -> bool {
    &&& (top == 0 || exists|u: nat| #[trigger]
        vars.contains(u) && level_of(trail, pos, u) == Some(top))
    &&& forall|u: nat| #[trigger]
        vars.contains(u) && level_of(trail, pos, u) is Some ==> level_of(trail, pos, u).unwrap()
            <= top
}

/// Whether `r` is the highest level below `top` at which a variable of
/// `vars` was assigned, or zero where there is none.
pub open spec fn next_below(
    vars: Set<nat>,
    trail: Seq<TrailEntry>,
    pos: Seq<Option<usize>>,
    top: usize,
    r: usize,
) -> bool {
    &&& (r == 0 || exists|u: nat| #[trigger]
        vars.contains(u) && level_of(trail, pos, u) == Some(r))
    &&& (r < top || (r == 0 && top == 0))
    &&& forall|u: nat| #[trigger]
        vars.contains(u) && level_of(trail, pos, u) is Some && level_of(trail, pos, u).unwrap()
            < top ==> level_of(trail, pos, u).unwrap() <= r
}

/// Whether `r` is the second highest of the distinct levels at which
/// variables of `vars` were assigned, level zero counted among them; it
/// is zero where there is no second one.
pub open spec fn second_highest(
    vars: Set<nat>,
    trail: Seq<TrailEntry>,
    pos: Seq<Option<usize>>,
    r: usize,
) -> bool {
    exists|top: usize| #[trigger]
        highest(vars, trail, pos, top) && next_below(vars, trail, pos, top, r)
}

/// The position at which `x` first stands in `s`, or the length of `s`
/// where it does not occur.
pub open spec fn first_at(s: Seq<usize>, x: usize) -> int
    decreases s.len(),
{
    if s.len() == 0 {
        0
    } else if s[0] == x {
        0
    } else {
        1 + first_at(s.drop_first(), x)
    }
}

/// Calls `Itertools::unique` of `itertools` on the numbers and collects
/// what it yields. The claim is what its documentation says of it: each
/// number that occurs is yielded, none twice, and they come in the
/// order in which they first occur.
#[verifier::external_body]
pub(crate) fn distinct(numbers: Vec<usize>) -> (r: Vec<usize>)
    ensures
        r@.no_duplicates(),
        r@.to_set() == numbers@.to_set(),
        forall|i: int, j: int|
            0 <= i < j < r@.len() ==> first_at(numbers@, r@[i]) < first_at(numbers@, r@[j]),
{
    numbers.into_iter().unique().collect()
}

/// How many different numbers occur among those given.
pub fn count_distinct(numbers: Vec<usize>) -> (r: usize)
    ensures
        r == numbers@.to_set().len(),
{
    let unique = distinct(numbers);
    proof {
        unique@.unique_seq_to_set();
    }
    unique.len()
}

/// Whether the pairs stand in ascending order, by activity first and by
/// slot among equal activities.
pub open spec fn ascending_pairs(v: Seq<(u128, usize)>) -> bool {
    forall|i: int, j: int|
        0 <= i < j < v.len() ==> (#[trigger] v[i]).0 < (#[trigger] v[j]).0 || (v[i].0 == v[j].0
            && v[i].1 <= v[j].1)
}

/// Calls `sort` of the standard library on the pairs. The claim is what
/// its documentation says: the same pairs, in ascending order, where
/// pairs are ordered by their first part and then by their second.
#[verifier::external_body]
pub(crate) fn sort_pairs(pairs: &mut Vec<(u128, usize)>)
    ensures
        ascending_pairs(final(pairs)@),
        final(pairs)@.to_multiset() == old(pairs)@.to_multiset(),
{
    pairs.sort();
}

/// Whether `r` lists the slots of the less active half of the pairs of
/// activity and slot: the slots of the first half, rounded down, of the
/// pairs put in ascending order.
pub open spec fn weaker_half(pairs: Seq<(u128, usize)>, r: Seq<usize>) -> bool {
    exists|sorted: Seq<(u128, usize)>|
        {
            &&& ascending_pairs(sorted)
            &&& #[trigger] sorted.to_multiset() == pairs.to_multiset()
            &&& sorted.len() == pairs.len()
            &&& r.len() == pairs.len() / 2
            &&& forall|i: int| 0 <= i < r.len() ==> #[trigger] r[i] == sorted[i].1
        }
}

/// The slots of the less active half of the pairs of activity and slot,
/// the least active first; among equal activities the lower slot comes
/// first.
pub fn weakest_half(pairs: Vec<(u128, usize)>) -> (r: Vec<usize>)
    ensures
        weaker_half(pairs@, r@),
{
    let mut sorted = pairs;
    sort_pairs(&mut sorted);
    proof {
        sorted@.to_multiset_ensures();
        pairs@.to_multiset_ensures();
    }
    let half: usize = sorted.len() / 2;
    let mut r: Vec<usize> = Vec::new();
    let mut i: usize = 0;
    while i < half
        invariant
            i <= half,
            half == sorted@.len() / 2,
            r@.len() == i,
            forall|k: int| 0 <= k < i ==> #[trigger] r@[k] == sorted@[k].1,
        decreases half - i,
    {
        r.push(sorted[i].1);
        i = i + 1;
    }
    r
}

/// Whether `x` is the slot of one of the pairs.
pub open spec fn slot_in(pairs: Seq<(u128, usize)>, x: usize) -> bool {
    exists|j: int| 0 <= j < pairs.len() && (#[trigger] pairs[j]).1 == x
}

/// The slots of the less active half are slots of the pairs, and none
/// comes twice where no slot comes twice among the pairs.
pub proof fn lemma_half_members(pairs: Seq<(u128, usize)>, r: Seq<usize>)
    requires
        weaker_half(pairs, r),
        forall|a: int, b: int|
            0 <= a < b < pairs.len() ==> (#[trigger] pairs[a]).1 != (#[trigger] pairs[b]).1,
    ensures
        r.no_duplicates(),
        forall|i: int| 0 <= i < r.len() ==> slot_in(pairs, #[trigger] r[i]),
{
    let sorted = choose|sorted: Seq<(u128, usize)>|
        {
            &&& ascending_pairs(sorted)
            &&& #[trigger] sorted.to_multiset() == pairs.to_multiset()
            &&& sorted.len() == pairs.len()
            &&& r.len() == pairs.len() / 2
            &&& forall|i: int| 0 <= i < r.len() ==> #[trigger] r[i] == sorted[i].1
        };
    sorted.to_multiset_ensures();
    pairs.to_multiset_ensures();
    assert(pairs.no_duplicates());
    pairs.lemma_multiset_has_no_duplicates();
    sorted.lemma_multiset_has_no_duplicates_conv();
    assert forall|i: int| 0 <= i < r.len() implies slot_in(pairs, #[trigger] r[i]) by {
        assert(sorted.contains(sorted[i]));
        assert(sorted.to_multiset().count(sorted[i]) > 0);
        assert(pairs.to_multiset().count(sorted[i]) > 0);
        assert(pairs.contains(sorted[i]));
        let j = choose|j: int| 0 <= j < pairs.len() && pairs[j] == sorted[i];
        assert(pairs[j].1 == r[i]);
    }
    assert forall|i: int, j: int| 0 <= i < r.len() && 0 <= j < r.len() && i != j implies r[i]
        != r[j] by {
        if r[i] == r[j] {
            assert(sorted.contains(sorted[i]));
            assert(sorted.contains(sorted[j]));
            assert(sorted.to_multiset().count(sorted[i]) > 0);
            assert(sorted.to_multiset().count(sorted[j]) > 0);
            assert(pairs.to_multiset().count(sorted[i]) > 0);
            assert(pairs.to_multiset().count(sorted[j]) > 0);
            assert(pairs.contains(sorted[i]));
            assert(pairs.contains(sorted[j]));
            let a = choose|a: int| 0 <= a < pairs.len() && pairs[a] == sorted[i];
            let b = choose|b: int| 0 <= b < pairs.len() && pairs[b] == sorted[j];
            assert(pairs[a].1 == pairs[b].1);
            assert(a == b);
            assert(sorted[i] == sorted[j]);
        }
    }
}

/// The levels at which variables of `vars` below `c` were assigned.
pub open spec fn levels_below(
    vars: Set<nat>,
    trail: Seq<TrailEntry>,
    pos: Seq<Option<usize>>,
    c: nat,
) -> Set<usize> {
    Set::new(
        |l: usize|
            exists|u: nat| #[trigger] vars.contains(u) && u < c && level_of(trail, pos, u) == Some(l),
    )
}

/// The levels at which variables of `vars` were assigned.
pub open spec fn levels_of(vars: Set<nat>, trail: Seq<TrailEntry>, pos: Seq<Option<usize>>) -> Set<
    usize,
> {
    Set::new(
        |l: usize| exists|u: nat| #[trigger] vars.contains(u) && level_of(trail, pos, u) == Some(l),
    )
}

/// The state of the search.
pub struct Engine<B: BitSetT> {
    pub(crate) luby: Luby,
    pub(crate) conflicts: u64,
    pub(crate) cla_inc: u128,
    pub(crate) vsids_inc: u128,
    pub(crate) score_for_literal: Vec<TfPair<u128>>,
    pub(crate) literal_by_score: BTreeSet<(u128, isize)>,
    pub(crate) simplify_clauses_every: usize,
    pub(crate) all_variables: B,
    pub(crate) assignments: B,
    pub(crate) clauses_first_tombstone: Option<usize>,
    pub(crate) clauses: Vec<TombStone<Clause<B>>>,
    pub(crate) watched_clauses: Vec<TfPair<BTreeMap<usize, usize>>>,
    pub(crate) ready_for_unit_prop: B,
    pub(crate) trail: Vec<TrailEntry>,
    pub(crate) unassigned_variables: B,
    pub(crate) num_initial_clauses: usize,
    pub(crate) clauses_by_var: Vec<TfPair<B>>,
    pub(crate) trail_entry_idx_by_var: Vec<Option<usize>>,
    pub(crate) decision_level: usize,
    pub(crate) bitset_pool: Pool<B>,
    pub(crate) iterations: usize,
    pub(crate) rng: Pcg64,
    pub(crate) debug_writer: Option<String>,
    pub(crate) instantly_unsat: bool,
    pub(crate) exhausted: bool,
    pub(crate) free: Ghost<Seq<usize>>,
    pub(crate) formula: Ghost<Seq<Seq<isize>>>,
    pub(crate) pairs: Ghost<Seq<Option<(int, int)>>>,
}

impl<B: BitSetT> Engine<B> {
    /// The formula that the engine works on: every clause given so far.
    pub closed spec fn formula(&self) -> Seq<Seq<isize>> {
        self.formula@
    }

    /// What the slots of the clause table say.
    pub closed spec fn sh(&self) -> Seq<Option<Shape>> {
        shapes(self.clauses@)
    }

    /// The number of variables that the per-variable tables reach.
    pub closed spec fn num_vars(&self) -> nat {
        self.trail_entry_idx_by_var@.len()
    }

    /// The per-variable tables have one length, and variables have
    /// negations.
    pub closed spec fn sizes_ok(&self) -> bool {
        &&& 1 <= self.trail_entry_idx_by_var@.len() <= isize::MAX + 1
        &&& self.watched_clauses@.len() == self.trail_entry_idx_by_var@.len()
        &&& self.clauses_by_var@.len() == self.trail_entry_idx_by_var@.len()
        &&& self.score_for_literal@.len() == self.trail_entry_idx_by_var@.len()
        &&& 1 <= self.simplify_clauses_every
        &&& self.iterations < self.simplify_clauses_every
    }

    /// The invariant of the engine.
    pub closed spec fn wf(&self) -> bool {
        &&& self.sizes_ok()
        &&& self.luby.wf()
        &&& self.all_variables.wf()
        &&& self.assignments.wf()
        &&& self.unassigned_variables.wf()
        &&& self.ready_for_unit_prop.wf()
        &&& pool_wf(self.bitset_pool)
        &&& trail_ok(self.trail@, self.trail_entry_idx_by_var@, self.decision_level)
        &&& crate::trail::levels_step(self.trail@)
        &&& assign_ok(
            self.trail@,
            self.trail_entry_idx_by_var@,
            self.assignments@,
            self.unassigned_variables@,
            self.all_variables@,
        )
        &&& reasons_ok(self.trail@, self.trail_entry_idx_by_var@, self.sh())
        &&& units_ok(self.trail@, self.clauses@)
        &&& store_ok(self.clauses@)
        &&& covered(
            self.sh(),
            self.trail_entry_idx_by_var@,
            self.all_variables@,
            self.unassigned_variables@,
        )
        &&& free_ok(self.clauses@, self.free@, self.clauses_first_tombstone)
        &&& watch_ok(self.watched_clauses@, self.clauses@.len())
        &&& gens_ok(self.watched_clauses@, gens(self.clauses@))
        &&& pairs_ok(self.watched_clauses@, gens(self.clauses@), self.sh(), self.pairs@)
        &&& forall|i: nat| self.ready_for_unit_prop@.contains(i) ==> i < self.clauses@.len()
        &&& by_var_ok(self.clauses_by_var@)
        &&& scores_ok(self.score_for_literal@, self.vsids_inc, self.cla_inc)
        &&& db_follows(self.formula@, self.sh())
        &&& (!self.exhausted ==> db_covers(self.formula@, self.sh()))
        &&& self.all_variables@ == formula_vars(self.formula@)
        &&& (self.instantly_unsat ==> unsatisfiable(self.formula@))
        &&& (has_empty(self.formula@) && !self.exhausted ==> self.instantly_unsat)
        &&& ranked_ok(
            self.literal_by_score@,
            self.score_for_literal@,
            self.unassigned_variables@,
        )
    }

    /// The literals on the trail that were decided.
    pub closed spec fn decisions(&self) -> Set<int> {
        crate::trail::decision_lits(self.trail@)
    }

    /// Whether the variable `u` takes part in the search: it is
    /// unassigned or on the trail.
    pub closed spec fn tracks(&self, u: nat) -> bool {
        self.unassigned_variables@.contains(u) || (u < self.trail_entry_idx_by_var@.len()
            && self.trail_entry_idx_by_var@[u as int] is Some)
    }

    /// Whether the clause can be stored as a derived one: it is well
    /// formed, follows from the formula, and is over variables that take
    /// part in the search.
    pub closed spec fn learnable(&self, c: Clause<B>) -> bool {
        &&& c.wf()
        &&& c.score <= SCORE_CAP
        &&& forall|u: nat| #[trigger]
            c.variables@.contains(u) ==> u < self.trail_entry_idx_by_var@.len()
                && self.all_variables@.contains(u) && self.tracks(u)
        &&& forall|m: Set<nat>|
            formula_holds(m, self.formula@) ==> #[trigger] shape_holds(shape_of(c), m)
    }

    /// Whether the clause in slot `k` is in conflict with the trail
    /// through a literal of the current level.
    pub closed spec fn raised(&self, k: usize) -> bool {
        &&& self.conflicting(k)
        &&& has_top(
            self.clauses@[k as int].live_value().variables@,
            self.trail@,
            self.trail_entry_idx_by_var@,
            self.decision_level,
        )
    }

    /// Whether every entry of the watch index under the literal `f` is
    /// of a clause as it is now stored: none is left of a clause that
    /// has gone from its slot.
    pub closed spec fn no_stale(&self, f: int) -> bool {
        let listed = watchers(self.watched_clauses@, lit_var(f) as int, f > 0);
        forall|k: usize| #[trigger]
            listed.contains_key(k) ==> watching(
                self.watched_clauses@,
                gens(self.clauses@),
                self.sh(),
                f,
                k as int,
            )
    }

    /// Whether every entry of the watch index under the literal `f` in
    /// a slot up to `c` is of a clause as it is now stored: the visit
    /// goes by ascending slot, so these are the entries visited.
    pub closed spec fn no_stale_upto(&self, f: int, c: usize) -> bool {
        let listed = watchers(self.watched_clauses@, lit_var(f) as int, f > 0);
        forall|k: usize| #[trigger]
            listed.contains_key(k) && k <= c ==> watching(
                self.watched_clauses@,
                gens(self.clauses@),
                self.sh(),
                f,
                k as int,
            )
    }

    /// Whether the variable of the literal `l` was assigned at the
    /// current level.
    pub closed spec fn at_top(&self, l: int) -> bool {
        level_of(self.trail@, self.trail_entry_idx_by_var@, lit_var(l)) == Some(
            self.decision_level,
        )
    }

    /// Whether exactly one literal of the clause was assigned at the
    /// current level.
    pub closed spec fn asserting(&self, c: Clause<B>) -> bool {
        vars_at_level(
            c.variables@,
            self.trail@,
            self.trail_entry_idx_by_var@,
            self.decision_level,
        ).len() == 1
    }

    /// Whether the clause in slot `k` is stored and every literal of it
    /// is false on the trail.
    pub closed spec fn conflicting(&self, k: usize) -> bool {
        &&& k < self.clauses@.len()
        &&& self.clauses@[k as int].is_live()
        &&& falsified(
            self.trail@,
            self.trail_entry_idx_by_var@,
            shape_of(self.clauses@[k as int].live_value()),
        )
    }

    /// Whether some literal of the clause is true under the current
    /// assignment.
    pub(crate) fn is_satisfied(&self, clause: &Clause<B>) -> (r: bool)
        requires
            clause.wf(),
        ensures
            r == sat_under(shape_of(*clause), self.assignments@, self.unassigned_variables@),
    {
        let mut cursor: usize = 0;
        proof {
            clause.variables.lemma_bounded();
        }
        loop
            invariant
                clause.wf(),
                cursor <= clause.variables.cap(),
                forall|v: nat|
                    v < cursor && clause.variables@.contains(v) ==> !(
                    !self.unassigned_variables@.contains(v) && (self.assignments@.contains(v)
                        != clause.negatives@.contains(v))),
            decreases clause.variables.cap() - cursor,
        {
            match clause.variables.first_set_ge(cursor) {
                None => {
                    return false;
                },
                Some(v) => {
                    proof {
                        clause.variables.lemma_bounded();
                    }
                    if !self.unassigned_variables.contains(v) && self.assignments.contains(v)
                        != clause.negatives.contains(v) {
                        assert(shape_of(*clause).vars.contains(v as nat));
                        return true;
                    }
                    cursor = v + 1;
                },
            }
        }
    }

    /// The literal that the clause forces, if it forces one: its only
    /// unassigned literal where all its others are false.
    pub(crate) fn try_get_unit_literal(&self, clause: &Clause<B>) -> (r: Option<Literal>)
        requires
            self.unassigned_variables.wf(),
            clause.wf(),
        ensures
            match r {
                Some(l) => unit_under(
                    shape_of(*clause),
                    l.as_int(),
                    self.assignments@,
                    self.unassigned_variables@,
                ),
                None => forall|l: int|
                    !unit_under(
                        shape_of(*clause),
                        l,
                        self.assignments@,
                        self.unassigned_variables@,
                    ),
            },
    {
        let ghost s = shape_of(*clause);
        match self.unassigned_variables.intersect_first_set(&clause.variables) {
            None => {
                proof {
                    assert forall|l: int|
                        !unit_under(s, l, self.assignments@, self.unassigned_variables@) by {
                        if unit_under(s, l, self.assignments@, self.unassigned_variables@) {
                            assert(clause.variables@.contains(lit_var(l)));
                        }
                    }
                }
                None
            },
            Some(var) => {
                assert(clause.variables@.contains(var as nat));
                match self.unassigned_variables.intersect_first_set_ge(&clause.variables, var + 1) {
                    Some(other) => {
                        proof {
                            assert(clause.variables@.contains(other as nat));
                            assert forall|l: int|
                                !unit_under(s, l, self.assignments@, self.unassigned_variables@) by {
                                if unit_under(s, l, self.assignments@, self.unassigned_variables@) {
                                    if lit_var(l) == var {
                                        assert(s.vars.contains(other as nat));
                                    } else {
                                        assert(s.vars.contains(var as nat));
                                    }
                                }
                            }
                        }
                        None
                    },
                    None => {
                        if self.is_satisfied(clause) {
                            proof {
                                let w = choose|w: nat| #[trigger]
                                    s.vars.contains(w) && !self.unassigned_variables@.contains(w)
                                        && (self.assignments@.contains(w) != s.negs.contains(w));
                                assert forall|l: int|
                                    !unit_under(
                                        s,
                                        l,
                                        self.assignments@,
                                        self.unassigned_variables@,
                                    ) by {
                                    if unit_under(s, l, self.assignments@, self.unassigned_variables@) {
                                        assert(s.vars.contains(w));
                                    }
                                }
                            }
                            None
                        } else {
                            let l = Literal::new(var, !clause.negatives.contains(var));
                            proof {
                                assert forall|u: nat| #[trigger]
                                    s.vars.contains(u) && u != var implies !self.unassigned_variables@.contains(
                                    u,
                                ) && (self.assignments@.contains(u) == s.negs.contains(u)) by {
                                    if self.unassigned_variables@.contains(u) {
                                        assert(u < var || u >= var + 1);
                                    }
                                    assert(s.vars.contains(u));
                                }
                            }
                            Some(l)
                        }
                    },
                }
            },
        }
    }

    /// Stores a clause that follows from the formula, in a freed slot
    /// where there is one and else at the end of the table, and returns
    /// its slot.
    #[verifier::rlimit(100)]
    #[verifier::spinoff_prover]
    pub(crate) fn push_clause(&mut self, clause: Clause<B>) -> (r: usize)
        requires
            old(self).wf(),
            old(self).learnable(clause),
            old(self).clauses@.len() < MAX_CLAUSES || old(self).clauses_first_tombstone is Some,
        ensures
            final(self).wf(),
            r < final(self).clauses@.len(),
            final(self).clauses@.len() >= old(self).clauses@.len(),
            final(self).clauses@[r as int].is_live(),
            final(self).clauses@[r as int].live_value() == clause,
            r < old(self).clauses@.len() ==> !old(self).clauses@[r as int].is_live(),
            forall|k: int|
                0 <= k < old(self).clauses@.len() && k != r ==> final(self).clauses@[k] == old(
                    self,
                ).clauses@[k],
            final(self).pairs@.len() == final(self).clauses@.len(),
            final(self).pairs@[r as int] is None,
            forall|k: int|
                0 <= k < old(self).clauses@.len() ==> final(self).pairs@[k] == old(self).pairs@[k],
            final(self).sh().len() == final(self).clauses@.len(),
            final(self).sh()[r as int] == Some(shape_of(clause)),
            old(self).sh().len() <= final(self).sh().len() <= old(self).sh().len() + 1,
            r >= old(self).sh().len() || final(self).sh().len() == old(self).sh().len(),
            forall|k: int|
                0 <= k < old(self).sh().len() && k != r ==> final(self).sh()[k] == old(self).sh()[k],
            *final(self) == (Engine {
                clauses: final(self).clauses,
                clauses_first_tombstone: final(self).clauses_first_tombstone,
                free: final(self).free,
                pairs: final(self).pairs,
                ..*old(self)
            }),
    {
        let ghost old_sh = self.sh();
        let r: usize;
        proof {
            reveal(free_ok);
            reveal(store_ok);
        }
        match self.clauses_first_tombstone {
            None => {
                self.clauses.push(TombStone::new(0, clause));
                r = self.clauses.len() - 1;
                proof {
                    assert(self.free@.len() == 0);
                    self.pairs = Ghost(self.pairs@.push(None));
                }
            },
            Some(idx) => {
                assert(idx == self.free@[0]);
                let gen: usize = *self.clauses[idx].generation();
                let next_gen: usize = gen + 1;
                self.clauses_first_tombstone = self.clauses[idx].tombstone_idx_exn();
                self.clauses.set(idx, TombStone::new(next_gen, clause));
                r = idx;
                proof {
                    let old_free = self.free@;
                    self.free = Ghost(old_free.subrange(1, old_free.len() as int));
                    assert forall|j: int| 0 <= j < self.free@.len() implies (#[trigger] self.free@[j])
                        != idx by {
                        assert(old_free[j + 1] == self.free@[j]);
                    }
                }
            },
        }
        proof {
            let sh = self.sh();
            let c = shape_of(clause);
            assert(sh[r as int] == Some(c));
            assert forall|k: int| 0 <= k < old_sh.len() && k != r implies sh[k] == old_sh[k] by {}
            assert(r < old_sh.len() ==> old_sh[r as int] is None);
            self.lemma_wf_after_store(*old(self), r, c);
        }
        r
    }

    /// The generations are what they were where each slot keeps its own.
    proof fn lemma_same_gens(&self, before: Engine<B>)
        requires
            self.clauses@.len() == before.clauses@.len(),
            forall|k: int|
                0 <= k < before.clauses@.len() ==> (#[trigger] self.clauses@[k]).gen()
                    == before.clauses@[k].gen(),
        ensures
            gens(self.clauses@) == gens(before.clauses@),
    {
        assert(gens(self.clauses@) =~= gens(before.clauses@));
    }

    /// The record of watched literals stays right where a clause is put
    /// in an empty or new slot `r` under a later generation: nothing
    /// watches the new clause yet.
    proof fn lemma_pairs_after_store(&self, before: Engine<B>, r: usize)
        requires
            watch_ok(before.watched_clauses@, before.clauses@.len()),
            gens_ok(before.watched_clauses@, gens(before.clauses@)),
            pairs_ok(before.watched_clauses@, gens(before.clauses@), before.sh(), before.pairs@),
            self.watched_clauses == before.watched_clauses,
            r < self.clauses@.len(),
            self.clauses@.len() == before.clauses@.len() || (self.clauses@.len()
                == before.clauses@.len() + 1 && r == before.clauses@.len()),
            r < before.clauses@.len() ==> !before.clauses@[r as int].is_live()
                && self.clauses@[r as int].gen() > before.clauses@[r as int].gen(),
            forall|k: int|
                0 <= k < before.clauses@.len() && k != r ==> self.clauses@[k] == before.clauses@[k],
            self.pairs@ == if self.clauses@.len() == before.clauses@.len() {
                before.pairs@
            } else {
                before.pairs@.push(None)
            },
        ensures
            gens_ok(self.watched_clauses@, gens(self.clauses@)),
            pairs_ok(self.watched_clauses@, gens(self.clauses@), self.sh(), self.pairs@),
            self.pairs@[r as int] is None,
    {
        reveal(watch_ok);
        reveal(gens_ok);
        reveal(pairs_ok);
        let w = self.watched_clauses@;
        let g0 = gens(before.clauses@);
        let g = gens(self.clauses@);
        let sh0 = before.sh();
        let sh = self.sh();
        assert forall|v: int| 0 <= v < w.len() implies gens_below((#[trigger] w[v]).first@, g)
            && gens_below(w[v].second@, g) by {
            assert(gens_below(w[v].first@, g0) && gens_below(w[v].second@, g0));
        }
        assert forall|l: int, k: int| #[trigger] watching(w, g, sh, l, k) implies k != r
            && watching(w, g0, sh0, l, k) by {
            let m = watchers(w, lit_var(l) as int, l > 0);
            assert(gens_below(w[lit_var(l) as int].first@, g0) && gens_below(
                w[lit_var(l) as int].second@,
                g0,
            ));
            assert(keys_below(w[lit_var(l) as int].first@, before.clauses@.len()) && keys_below(
                w[lit_var(l) as int].second@,
                before.clauses@.len(),
            ));
            assert(m.contains_key(k as usize));
        }
        if r < before.clauses@.len() {
            if before.pairs@[r as int] is Some {
                assert(pair_ok(w, g0, sh0, before.pairs@[r as int].unwrap(), r as int));
            }
        }
        assert forall|k: int| 0 <= k < self.pairs@.len() && (#[trigger] self.pairs@[k]) is Some implies pair_ok(
            w,
            g,
            sh,
            self.pairs@[k].unwrap(),
            k,
        ) by {
            assert(pair_ok(w, g0, sh0, before.pairs@[k].unwrap(), k));
            assert(k != r);
        }
    }

    /// The invariant is kept where a clause that follows from the formula
    /// is put in an empty or new slot `r` and the free list gives up that
    /// slot.
    proof fn lemma_wf_after_store(&self, before: Engine<B>, r: usize, c: Shape)
        requires
            before.wf(),
            *self == (Engine {
                clauses: self.clauses,
                clauses_first_tombstone: self.clauses_first_tombstone,
                free: self.free,
                pairs: self.pairs,
                ..before
            }),
            self.pairs@ == if self.clauses@.len() == before.clauses@.len() {
                before.pairs@
            } else {
                before.pairs@.push(None)
            },
            r < before.clauses@.len() ==> self.clauses@[r as int].gen() > before.clauses@[r as int].gen(),
            r < self.clauses@.len(),
            self.clauses@.len() <= MAX_CLAUSES,
            self.clauses@.len() == before.clauses@.len() || (self.clauses@.len()
                == before.clauses@.len() + 1 && r == before.clauses@.len()),
            r < before.clauses@.len() ==> !before.clauses@[r as int].is_live(),
            self.clauses@[r as int].is_live(),
            self.clauses@[r as int].live_value().wf(),
            self.clauses@[r as int].live_value().score <= SCORE_CAP,
            shape_of(self.clauses@[r as int].live_value()) == c,
            forall|k: int|
                0 <= k < before.clauses@.len() && k != r ==> self.clauses@[k] == before.clauses@[k],
            forall|u: nat| #[trigger]
                c.vars.contains(u) ==> u < before.trail_entry_idx_by_var@.len()
                    && before.all_variables@.contains(u) && (before.unassigned_variables@.contains(
                    u,
                ) || before.trail_entry_idx_by_var@[u as int] is Some),
            forall|m: Set<nat>|
                formula_holds(m, before.formula@) ==> #[trigger] crate::trail::shape_holds(c, m),
            free_ok(self.clauses@, self.free@, self.clauses_first_tombstone),
        ensures
            self.wf(),
            self.pairs@.len() == self.clauses@.len(),
            self.pairs@[r as int] is None,
    {
        let sh = self.sh();
        let old_sh = before.sh();
        let trail = self.trail@;
        let pos = self.trail_entry_idx_by_var@;
        assert(self.pairs@.len() == self.clauses@.len()) by {
            reveal(pairs_ok);
        }
        assert forall|k: int| 0 <= k < old_sh.len() && k != r implies sh[k] == old_sh[k] by {}
        assert(reasons_ok(trail, pos, sh)) by {
            reveal(reasons_ok);
            assert forall|i: int| 0 <= i < trail.len() implies #[trigger] crate::trail::reason_ok(
                trail,
                pos,
                sh,
                i,
            ) by {
                assert(crate::trail::reason_ok(trail, pos, old_sh, i));
            }
        }
        assert(units_ok(trail, self.clauses@)) by {
            reveal(units_ok);
        }
        assert(store_ok(self.clauses@)) by {
            reveal(store_ok);
        }
        assert(covered(sh, pos, self.all_variables@, self.unassigned_variables@)) by {
            reveal(covered);
            assert forall|k: int, u: nat|
                0 <= k < sh.len() && sh[k] is Some && #[trigger] sh[k].unwrap().vars.contains(
                    u,
                ) implies u < pos.len() && self.all_variables@.contains(u) && (
                self.unassigned_variables@.contains(u) || pos[u as int] is Some) by {
                if k != r {
                    assert(old_sh[k].unwrap().vars.contains(u));
                }
            }
        }
        assert(watch_ok(self.watched_clauses@, self.clauses@.len())) by {
            reveal(watch_ok);
        }
        self.lemma_pairs_after_store(before, r);
        assert(db_follows(self.formula@, sh)) by {
            reveal(db_follows);
            assert forall|m: Set<nat>, k: int|
                formula_holds(m, self.formula@) && 0 <= k < sh.len() && sh[k] is Some implies #[trigger] crate::trail::shape_holds(
                sh[k].unwrap(),
                m,
            ) by {
                if k != r {
                    assert(crate::trail::shape_holds(old_sh[k].unwrap(), m));
                }
            }
        }
        if !self.exhausted {
            assert(db_covers(self.formula@, sh)) by {
                reveal(db_covers);
                assert forall|m: Set<nat>| #[trigger]
                    crate::trail::originals_hold(sh, m) implies formula_holds(m, self.formula@) by {
                    assert forall|k: int|
                        0 <= k < old_sh.len() && (#[trigger] old_sh[k]) is Some
                            && !old_sh[k].unwrap().learned implies crate::trail::shape_holds(
                        old_sh[k].unwrap(),
                        m,
                    ) by {
                        assert(sh[k] == old_sh[k]);
                    }
                    assert(crate::trail::originals_hold(old_sh, m));
                }
            }
        }
    }

    /// The clause in slot `k` as text.
    pub(crate) fn clause_string(&self, k: usize) -> (r: String)
        requires
            k < self.clauses@.len(),
            self.clauses@[k as int].is_live(),
            self.clauses@[k as int].live_value().wf(),
        ensures
            exists|lits: Seq<int>|
                self.clauses@[k as int].live_value().lists(lits) && r@ == #[trigger] trace::clause_form(
                    lits,
                ),
    {
        let lits = self.clauses[k].value_exn().iter_literals();
        let mut nums: Vec<isize> = Vec::new();
        let mut i: usize = 0;
        while i < lits.len()
            invariant
                i <= lits@.len(),
                nums@.len() == i,
                forall|j: int| 0 <= j < i ==> (#[trigger] nums@[j]) as int == lits@[j].as_int(),
            decreases lits@.len() - i,
        {
            nums.push(lits[i].to_isize());
            i = i + 1;
        }
        let r = trace::clause_text(&nums);
        proof {
            let listed = lits@.map_values(|l: Literal| l.as_int());
            assert(nums@.map_values(|l: isize| l as int) =~= listed);
            assert(r@ == trace::clause_form(listed));
        }
        r
    }

    /// Takes the newest entry off the trail and undoes it: its variable
    /// is unassigned again, the clause that forced it counts one entry
    /// less, and the level is that of the entry below.
    pub(crate) fn undo_entry(&mut self)
        requires
            old(self).wf(),
            old(self).trail@.len() > 0,
        ensures
            final(self).wf(),
            final(self).trail@ == old(self).trail@.drop_last(),
            final(self).sh() == old(self).sh(),
            final(self).clauses@.len() == old(self).clauses@.len(),
            final(self).unassigned_variables@ == old(self).unassigned_variables@.insert(
                entry_var(old(self).trail@.last()),
            ),
            forall|u: nat| old(self).tracks(u) ==> final(self).tracks(u),
            *final(self) == (Engine {
                literal_by_score: final(self).literal_by_score,
                trail: final(self).trail,
                trail_entry_idx_by_var: final(self).trail_entry_idx_by_var,
                unassigned_variables: final(self).unassigned_variables,
                clauses: final(self).clauses,
                decision_level: final(self).decision_level,
                debug_writer: final(self).debug_writer,
                ..*old(self)
            }),
    {
        proof {
            reveal(trail_ok);
            reveal(assign_ok);
            reveal(units_ok);
            reveal(reasons_ok);
        }
        let ghost last = (self.trail@.len() - 1) as int;
        assert(crate::trail::reason_ok(
            self.trail@,
            self.trail_entry_idx_by_var@,
            self.sh(),
            last,
        ));
        let entry = self.trail.pop().unwrap();
        let literal = entry.literal;
        let var: usize = literal.variable();
        if self.debug_writer.is_some() {
            trace::log(
                &mut self.debug_writer,
                trace::line_undo(literal.to_isize(), entry.decision_level),
            );
        }
        self.trail_entry_idx_by_var.set(var, None);
        self.unassigned_variables.set(var);
        ranked::rank(&mut self.literal_by_score, &self.score_for_literal, var);
        proof {
            ranked::lemma_ranked_with(
                old(self).literal_by_score@,
                self.score_for_literal@,
                old(self).unassigned_variables@,
                var as nat,
            );
        }
        match entry.reason {
            Reason::Decision(_) => {},
            Reason::ClauseIdx(clause_idx) => {
                count_unit(&mut self.clauses, clause_idx, false);
            },
        }
        self.decision_level = if self.trail.len() == 0 {
            0
        } else {
            self.trail[self.trail.len() - 1].decision_level
        };
        proof {
            self.lemma_wf_after_undo(*old(self));
        }
    }

    /// The invariant is kept where the newest entry leaves the trail.
    proof fn lemma_wf_after_undo(&self, before: Engine<B>)
        requires
            before.wf(),
            before.trail@.len() > 0,
            self.trail@ == before.trail@.drop_last(),
            self.trail_entry_idx_by_var@ == before.trail_entry_idx_by_var@.update(
                entry_var(before.trail@.last()) as int,
                None,
            ),
            self.unassigned_variables.wf(),
            self.unassigned_variables@ == before.unassigned_variables@.insert(
                entry_var(before.trail@.last()),
            ),
            self.decision_level == if self.trail@.len() == 0 {
                0
            } else {
                self.trail@.last().decision_level
            },
            self.clauses@.len() == before.clauses@.len(),
            match before.trail@.last().reason {
                Reason::Decision(_) => self.clauses@ == before.clauses@,
                Reason::ClauseIdx(k) => k < before.clauses@.len() && (forall|j: int|
                    0 <= j < before.clauses@.len() && j != k ==> self.clauses@[j]
                        == before.clauses@[j]) && self.clauses@[k as int] == TombStone::T(
                    before.clauses@[k as int].gen(),
                    Clause {
                        num_units: (before.clauses@[k as int].live_value().num_units - 1) as usize,
                        ..before.clauses@[k as int].live_value()
                    },
                ),
            },
            *self == (Engine {
                literal_by_score: self.literal_by_score,
                trail: self.trail,
                trail_entry_idx_by_var: self.trail_entry_idx_by_var,
                unassigned_variables: self.unassigned_variables,
                clauses: self.clauses,
                decision_level: self.decision_level,
                debug_writer: self.debug_writer,
                ..before
            }),
            ranked_ok(
                self.literal_by_score@,
                self.score_for_literal@,
                self.unassigned_variables@,
            ),
        ensures
            self.wf(),
            self.sh() == before.sh(),
    {
        crate::trail::lemma_levels_pop(before.trail@);
        reveal(trail_ok);
        reveal(assign_ok);
        reveal(units_ok);
        reveal(reasons_ok);
        let t0 = before.trail@;
        let p0 = before.trail_entry_idx_by_var@;
        let t = self.trail@;
        let p = self.trail_entry_idx_by_var@;
        let last = (t0.len() - 1) as int;
        let e = t0[last];
        let var = entry_var(e);
        let sh = before.sh();
        assert(crate::trail::reason_ok(t0, p0, sh, last));
        assert(self.sh() =~= sh) by {
            assert forall|k: int| 0 <= k < sh.len() implies self.sh()[k] == sh[k] by {
                if e.reason is ClauseIdx && k == e.reason->ClauseIdx_0 {
                    assert(before.clauses@[k].is_live());
                }
            }
        }
        self.lemma_same_gens(before);
        assert(p0[var as int] == Some(last as usize));
        assert forall|i: int| 0 <= i < t.len() implies entry_var(#[trigger] t[i]) != var by {
            assert(t[i] == t0[i]);
            assert(p0[entry_var(t0[i]) as int] == Some(i as usize));
        }
        assert(trail_ok(t, p, self.decision_level)) by {
            assert forall|i: int| 0 <= i < t.len() implies {
                let x = #[trigger] t[i];
                &&& x.literal.as_int() != 0
                &&& entry_var(x) < p.len()
                &&& p[entry_var(x) as int] == Some(i as usize)
                &&& x.decision_level <= i + 1
                &&& (x.reason is Decision ==> x.decision_level >= 1 && x.reason->Decision_0
                    == x.literal)
            } by {
                assert(t[i] == t0[i]);
            }
            assert forall|i: int, j: int| 0 <= i <= j < t.len() implies (#[trigger] t[i]).decision_level
                <= (#[trigger] t[j]).decision_level by {
                assert(t[i] == t0[i] && t[j] == t0[j]);
            }
            assert forall|v: int| 0 <= v < p.len() && (#[trigger] p[v]) is Some implies p[v].unwrap()
                < t.len() && entry_var(t[p[v].unwrap() as int]) == v by {
                assert(p0[v] is Some);
                assert(v != var);
                if p0[v].unwrap() == last {
                    assert(entry_var(t0[last]) == v);
                }
                assert(t[p[v].unwrap() as int] == t0[p0[v].unwrap() as int]);
            }
        }
        assert(assign_ok(
            t,
            p,
            self.assignments@,
            self.unassigned_variables@,
            self.all_variables@,
        )) by {
            assert forall|i: int| 0 <= i < t.len() implies self.assignments@.contains(
                entry_var(#[trigger] t[i]),
            ) == entry_val(t[i]) && self.all_variables@.contains(entry_var(t[i])) by {
                assert(t[i] == t0[i]);
            }
            assert(before.all_variables@.contains(entry_var(t0[last])));
        }
        assert(reasons_ok(t, p, self.sh())) by {
            assert forall|i: int| 0 <= i < t.len() implies #[trigger] crate::trail::reason_ok(
                t,
                p,
                sh,
                i,
            ) by {
                assert(crate::trail::reason_ok(t0, p0, sh, i));
                assert(t[i] == t0[i]);
                if t[i].reason is ClauseIdx {
                    let k = t[i].reason->ClauseIdx_0;
                    let s = sh[k as int].unwrap();
                    assert forall|u: nat| #[trigger]
                        s.vars.contains(u) && u != entry_var(t[i]) implies false_at(
                        t,
                        p,
                        s.negs,
                        u,
                        i,
                    ) by {
                        assert(false_at(t0, p0, s.negs, u, i));
                        let q = p0[u as int].unwrap() as int;
                        assert(entry_var(t0[q]) == u);
                        assert(t[q] == t0[q]);
                    }
                }
            }
        }
        assert(units_ok(t, self.clauses@)) by {
            assert forall|i: int| 0 <= i < t.len() && (#[trigger] t[i]).reason is ClauseIdx implies {
                let k = t[i].reason->ClauseIdx_0;
                k < self.clauses@.len() && self.clauses@[k as int].is_live()
                    && self.clauses@[k as int].live_value().num_units >= 1
            } by {
                assert(t[i] == t0[i]);
                let k = t[i].reason->ClauseIdx_0;
                if e.reason is ClauseIdx && e.reason->ClauseIdx_0 == k {
                    let s = sh[k as int].unwrap();
                    assert(crate::trail::reason_ok(t0, p0, sh, i));
                    assert(s.vars.contains(entry_var(t0[i])));
                    assert(false_at(t0, p0, s.negs, entry_var(t0[i]), last));
                    assert(false);
                }
            }
        }
        assert(store_ok(self.clauses@)) by {
            reveal(store_ok);
            assert forall|k: int|
                0 <= k < self.clauses@.len() && (#[trigger] self.clauses@[k]).is_live() implies self.clauses@[k].live_value().wf()
                && self.clauses@[k].live_value().score <= SCORE_CAP by {
                assert(before.clauses@[k].is_live());
            }
        }
        assert(covered(self.sh(), p, self.all_variables@, self.unassigned_variables@)) by {
            reveal(covered);
            assert forall|k: int, u: nat|
                0 <= k < sh.len() && sh[k] is Some && #[trigger] sh[k].unwrap().vars.contains(
                    u,
                ) implies u < p.len() && self.all_variables@.contains(u) && (
                self.unassigned_variables@.contains(u) || p[u as int] is Some) by {
                assert(u < p0.len());
            }
        }
        assert(free_ok(self.clauses@, self.free@, self.clauses_first_tombstone)) by {
            reveal(free_ok);
            assert forall|j: int| 0 <= j < self.free@.len() implies (#[trigger] self.free@[j])
                < self.clauses@.len() && !self.clauses@[self.free@[j] as int].is_live()
                && self.clauses@[self.free@[j] as int].gen() < usize::MAX
                && self.clauses@[self.free@[j] as int].next_free() == if j + 1 < self.free@.len() {
                Some(self.free@[j + 1])
            } else {
                None
            } by {
                assert(!before.clauses@[self.free@[j] as int].is_live());
            }
        }
        assert(watch_ok(self.watched_clauses@, self.clauses@.len())) by {
            reveal(watch_ok);
        }
    }

    /// Whether every literal of the clause is false: none is true and no
    /// variable of it is unassigned.
    pub(crate) fn all_false(&self, clause: &Clause<B>) -> (r: bool)
        requires
            self.unassigned_variables.wf(),
            clause.wf(),
        ensures
            r == (!sat_under(shape_of(*clause), self.assignments@, self.unassigned_variables@)
                && forall|u: nat|
                clause.variables@.contains(u) ==> !self.unassigned_variables@.contains(u)),
    {
        if self.is_satisfied(clause) {
            return false;
        }
        match self.unassigned_variables.intersect_first_set(&clause.variables) {
            Some(v) => false,
            None => true,
        }
    }

    /// A stored clause without a true literal and without an unassigned
    /// variable has every literal false on the trail.
    proof fn lemma_conflicting(&self, k: usize)
        requires
            self.wf(),
            k < self.clauses@.len(),
            self.clauses@[k as int].is_live(),
            !sat_under(
                shape_of(self.clauses@[k as int].live_value()),
                self.assignments@,
                self.unassigned_variables@,
            ),
            forall|u: nat|
                self.clauses@[k as int].live_value().variables@.contains(u)
                    ==> !self.unassigned_variables@.contains(u),
        ensures
            self.conflicting(k),
    {
        reveal(covered);
        reveal(trail_ok);
        reveal(assign_ok);
        let s = shape_of(self.clauses@[k as int].live_value());
        let t = self.trail@;
        let p = self.trail_entry_idx_by_var@;
        assert(self.sh()[k as int] == Some(s));
        assert forall|u: nat| #[trigger] s.vars.contains(u) implies false_at(
            t,
            p,
            s.negs,
            u,
            t.len() as int,
        ) by {
            assert(self.sh()[k as int].unwrap().vars.contains(u));
            assert(p[u as int] is Some);
            let q = p[u as int].unwrap() as int;
            assert(entry_var(t[q]) == u);
        }
    }

    /// The invariant is kept where only the watch index, the ready set,
    /// the trace and the mark of a formula known to have no model change.
    proof fn lemma_wf_after_watch(&self, before: Engine<B>)
        requires
            before.wf(),
            *self == (Engine {
                watched_clauses: self.watched_clauses,
                ready_for_unit_prop: self.ready_for_unit_prop,
                debug_writer: self.debug_writer,
                instantly_unsat: self.instantly_unsat,
                pairs: self.pairs,
                ..before
            }),
            self.instantly_unsat ==> unsatisfiable(self.formula@),
            before.instantly_unsat ==> self.instantly_unsat,
            self.watched_clauses@.len() == before.watched_clauses@.len(),
            watch_ok(self.watched_clauses@, self.clauses@.len()),
            gens_ok(self.watched_clauses@, gens(self.clauses@)),
            pairs_ok(self.watched_clauses@, gens(self.clauses@), self.sh(), self.pairs@),
            self.ready_for_unit_prop.wf(),
            forall|i: nat| self.ready_for_unit_prop@.contains(i) ==> i < self.clauses@.len(),
        ensures
            self.wf(),
            self.sh() == before.sh(),
            self.decisions() == before.decisions(),
            forall|c: Clause<B>| self.learnable(c) == before.learnable(c),
    {
        assert forall|c: Clause<B>| self.learnable(c) == before.learnable(c) by {
            assert forall|u: nat| self.tracks(u) == before.tracks(u) by {}
        }
    }

    /// The record of watched literals stays right where a watcher that
    /// is out of date leaves the watch index.
    proof fn lemma_pairs_after_drop(&self, before: Engine<B>, var: usize, pol: bool, k: usize)
        requires
            before.wf(),
            var < before.watched_clauses@.len(),
            self.clauses == before.clauses,
            self.pairs == before.pairs,
            self.watched_clauses@.len() == before.watched_clauses@.len(),
            watchers(self.watched_clauses@, var as int, pol) == watchers(
                before.watched_clauses@,
                var as int,
                pol,
            ).remove(k),
            watchers(self.watched_clauses@, var as int, !pol) == watchers(
                before.watched_clauses@,
                var as int,
                !pol,
            ),
            forall|v: int|
                0 <= v < before.watched_clauses@.len() && v != var ==> self.watched_clauses@[v]
                    == before.watched_clauses@[v],
            !(k < before.clauses@.len() && before.clauses@[k as int].is_live() && watchers(
                before.watched_clauses@,
                var as int,
                pol,
            ).contains_key(k) && watchers(before.watched_clauses@, var as int, pol)[k]
                == before.clauses@[k as int].gen()),
        ensures
            gens_ok(self.watched_clauses@, gens(self.clauses@)),
            pairs_ok(self.watched_clauses@, gens(self.clauses@), self.sh(), self.pairs@),
    {
        reveal(gens_ok);
        reveal(pairs_ok);
        reveal(store_ok);
        let w0 = before.watched_clauses@;
        let w = self.watched_clauses@;
        let g = gens(self.clauses@);
        let sh = self.sh();
        assert forall|v: int| 0 <= v < w.len() implies gens_below((#[trigger] w[v]).first@, g)
            && gens_below(w[v].second@, g) by {
            assert(gens_below(w0[v].first@, g) && gens_below(w0[v].second@, g));
            if v == var {
                assert(w[v].pick(pol)@ == w0[v].pick(pol)@.remove(k));
                assert(w[v].pick(!pol)@ == w0[v].pick(!pol)@);
            }
        }
        assert forall|l: int, j: int| watching(w, g, sh, l, j) == watching(w0, g, sh, l, j) by {
            if l != 0 && lit_var(l) < w.len() && 0 <= j < g.len() {
                let v = lit_var(l) as int;
                assert(g[j] == self.clauses@[j].gen());
                assert(sh[j] is Some == self.clauses@[j].is_live());
                if v == var {
                    assert(w[v].pick(pol)@ == w0[v].pick(pol)@.remove(k));
                    assert(w[v].pick(!pol)@ == w0[v].pick(!pol)@);
                    assert(watchers(w, v, l > 0) == w[v].pick(l > 0)@);
                    assert(watchers(w0, v, l > 0) == w0[v].pick(l > 0)@);
                } else {
                    assert(w[v] == w0[v]);
                }
            }
        }
        assert forall|j: int| 0 <= j < self.pairs@.len() && (#[trigger] self.pairs@[j]) is Some implies pair_ok(
            w,
            g,
            sh,
            self.pairs@[j].unwrap(),
            j,
        ) by {
            assert(pair_ok(w0, g, sh, self.pairs@[j].unwrap(), j));
        }
    }

    /// The watched literals recorded for the clause in slot `k`.
    pub closed spec fn pair_of(&self, k: int) -> Option<(int, int)> {
        if 0 <= k < self.pairs@.len() {
            self.pairs@[k]
        } else {
            None
        }
    }

    /// The pair with the literal `from` exchanged for `to`.
    pub open spec fn exchanged(pair: (int, int), from: int, to: int) -> (int, int) {
        if pair.0 == from {
            (to, pair.1)
        } else {
            (pair.0, to)
        }
    }

    /// The record of watched literals stays right where the clause in
    /// slot `k` gives up its watch on `from` for one on `to`, a literal
    /// of the clause that did not watch it.
    proof fn lemma_pairs_after_move(&self, before: Engine<B>, from: int, to: int, k: usize)
        requires
            before.wf(),
            k < before.clauses@.len(),
            before.clauses@[k as int].is_live(),
            watching(
                before.watched_clauses@,
                gens(before.clauses@),
                before.sh(),
                from,
                k as int,
            ),
            !watching(before.watched_clauses@, gens(before.clauses@), before.sh(), to, k as int),
            to != 0,
            lit_var(to) < before.watched_clauses@.len(),
            lit_in(
                before.sh()[k as int].unwrap().vars,
                before.sh()[k as int].unwrap().negs,
                to,
            ),
            lit_in(
                before.sh()[k as int].unwrap().vars,
                before.sh()[k as int].unwrap().negs,
                from,
            ),
            self.clauses == before.clauses,
            self.watched_clauses@.len() == before.watched_clauses@.len(),
            watchers(self.watched_clauses@, lit_var(from) as int, from > 0) == watchers(
                before.watched_clauses@,
                lit_var(from) as int,
                from > 0,
            ).remove(k),
            watchers(self.watched_clauses@, lit_var(to) as int, to > 0) == watchers(
                before.watched_clauses@,
                lit_var(to) as int,
                to > 0,
            ).insert(k, before.clauses@[k as int].gen()),
            watchers(self.watched_clauses@, lit_var(from) as int, !(from > 0)) == watchers(
                before.watched_clauses@,
                lit_var(from) as int,
                !(from > 0),
            ),
            watchers(self.watched_clauses@, lit_var(to) as int, !(to > 0)) == watchers(
                before.watched_clauses@,
                lit_var(to) as int,
                !(to > 0),
            ),
            forall|v: int|
                0 <= v < before.watched_clauses@.len() && v != lit_var(from) && v != lit_var(to)
                    ==> self.watched_clauses@[v] == before.watched_clauses@[v],
            before.pairs@[k as int] is Some,
            self.pairs@ == before.pairs@.update(
                k as int,
                Some(Self::exchanged(before.pairs@[k as int].unwrap(), from, to)),
            ),
        ensures
            watch_ok(self.watched_clauses@, self.clauses@.len()),
            gens_ok(self.watched_clauses@, gens(self.clauses@)),
            pairs_ok(self.watched_clauses@, gens(self.clauses@), self.sh(), self.pairs@),
            lit_var(from) != lit_var(to),
    {
        reveal(watch_ok);
        reveal(gens_ok);
        reveal(pairs_ok);
        reveal(store_ok);
        let w0 = before.watched_clauses@;
        let w = self.watched_clauses@;
        let g = gens(self.clauses@);
        let sh = self.sh();
        let vf = lit_var(from) as int;
        let vt = lit_var(to) as int;
        let old_pair = before.pairs@[k as int].unwrap();
        let new_pair = Self::exchanged(old_pair, from, to);
        assert(pair_ok(w0, g, sh, old_pair, k as int));
        assert(from == old_pair.0 || from == old_pair.1);
        assert(from != to);
        assert(vf != vt);
        assert forall|v: int| 0 <= v < w.len() implies keys_below(
            (#[trigger] w[v]).first@,
            self.clauses@.len(),
        ) && keys_below(w[v].second@, self.clauses@.len()) && gens_below(w[v].first@, g)
            && gens_below(w[v].second@, g) by {
            assert(keys_below(w0[v].first@, self.clauses@.len()) && keys_below(
                w0[v].second@,
                self.clauses@.len(),
            ));
            assert(gens_below(w0[v].first@, g) && gens_below(w0[v].second@, g));
            if v == vf {
                assert(w[v].pick(from > 0)@ == w0[v].pick(from > 0)@.remove(k));
                assert(w[v].pick(!(from > 0))@ == w0[v].pick(!(from > 0))@);
            } else if v == vt {
                assert(w[v].pick(to > 0)@ == w0[v].pick(to > 0)@.insert(k, g[k as int]));
                assert(w[v].pick(!(to > 0))@ == w0[v].pick(!(to > 0))@);
            }
        }
        assert(g[k as int] == before.clauses@[k as int].gen());
        assert forall|l: int, j: int|
            watching(w, g, sh, l, j) == (if j == k && l == from {
                false
            } else if j == k && l == to {
                true
            } else {
                watching(w0, g, sh, l, j)
            }) by {
            if l != 0 && lit_var(l) < w.len() && 0 <= j < g.len() {
                let v = lit_var(l) as int;
                assert(watchers(w, v, l > 0) == w[v].pick(l > 0)@);
                assert(watchers(w0, v, l > 0) == w0[v].pick(l > 0)@);
                if v == vf {
                    assert(w[v].pick(from > 0)@ == w0[v].pick(from > 0)@.remove(k));
                    assert(w[v].pick(!(from > 0))@ == w0[v].pick(!(from > 0))@);
                    if l != from {
                        assert(l == -from);
                    }
                } else if v == vt {
                    assert(w[v].pick(to > 0)@ == w0[v].pick(to > 0)@.insert(k, g[k as int]));
                    assert(w[v].pick(!(to > 0))@ == w0[v].pick(!(to > 0))@);
                    if l != to {
                        assert(l == -to);
                    }
                } else {
                    assert(w[v] == w0[v]);
                }
            }
        }
        if old_pair.0 == old_pair.1 {
            assert(sh[k as int].unwrap().vars.contains(lit_var(to)));
            assert(false);
        }
        assert forall|j: int| 0 <= j < self.pairs@.len() && (#[trigger] self.pairs@[j]) is Some implies pair_ok(
            w,
            g,
            sh,
            self.pairs@[j].unwrap(),
            j,
        ) by {
            if j == k {
                assert(watching(w0, g, sh, old_pair.0, j) && watching(w0, g, sh, old_pair.1, j));
            } else {
                assert(pair_ok(w0, g, sh, before.pairs@[j].unwrap(), j));
            }
        }
        assert forall|l: int, j: int| #[trigger] watching(w, g, sh, l, j) implies self.pairs@[j] is Some
            && (l == self.pairs@[j].unwrap().0 || l == self.pairs@[j].unwrap().1) by {
            if j == k && l == to {
            } else {
                assert(watching(w0, g, sh, l, j));
            }
        }
    }

    /// The record of watched literals stays right where the clause in
    /// slot `k`, which nothing watched, comes to be watched by the two
    /// literals recorded for it.
    proof fn lemma_pairs_after_install(&self, before: Engine<B>, a: int, b: int, k: usize)
        requires
            before.wf(),
            k < before.clauses@.len(),
            before.clauses@[k as int].is_live(),
            before.pairs@[k as int] is None,
            a != 0,
            b != 0,
            lit_var(a) < before.watched_clauses@.len(),
            lit_var(b) < before.watched_clauses@.len(),
            lit_in(before.sh()[k as int].unwrap().vars, before.sh()[k as int].unwrap().negs, a),
            lit_in(before.sh()[k as int].unwrap().vars, before.sh()[k as int].unwrap().negs, b),
            a == b ==> forall|u: nat| #[trigger]
                before.sh()[k as int].unwrap().vars.contains(u) ==> u == lit_var(a),
            self.clauses == before.clauses,
            self.watched_clauses@.len() == before.watched_clauses@.len(),
            forall|v: int|
                0 <= v < before.watched_clauses@.len() ==> (#[trigger] self.watched_clauses@[v]).first@
                    == (if a == v || b == v {
                    before.watched_clauses@[v].first@.insert(k, before.clauses@[k as int].gen())
                } else {
                    before.watched_clauses@[v].first@
                }) && self.watched_clauses@[v].second@ == (if a == -v || b == -v {
                    before.watched_clauses@[v].second@.insert(k, before.clauses@[k as int].gen())
                } else {
                    before.watched_clauses@[v].second@
                }),
            self.pairs@ == before.pairs@.update(k as int, Some((a, b))),
        ensures
            watch_ok(self.watched_clauses@, self.clauses@.len()),
            gens_ok(self.watched_clauses@, gens(self.clauses@)),
            pairs_ok(self.watched_clauses@, gens(self.clauses@), self.sh(), self.pairs@),
    {
        reveal(watch_ok);
        reveal(gens_ok);
        reveal(pairs_ok);
        reveal(store_ok);
        let w0 = before.watched_clauses@;
        let w = self.watched_clauses@;
        let g = gens(self.clauses@);
        let sh = self.sh();
        assert forall|v: int| 0 <= v < w.len() implies keys_below(
            (#[trigger] w[v]).first@,
            self.clauses@.len(),
        ) && keys_below(w[v].second@, self.clauses@.len()) && gens_below(w[v].first@, g)
            && gens_below(w[v].second@, g) by {
            assert(keys_below(w0[v].first@, self.clauses@.len()) && keys_below(
                w0[v].second@,
                self.clauses@.len(),
            ));
            assert(gens_below(w0[v].first@, g) && gens_below(w0[v].second@, g));
        }
        assert(g[k as int] == before.clauses@[k as int].gen());
        assert(sh[k as int] is Some);
        assert forall|l: int, j: int|
            watching(w, g, sh, l, j) == (if j == k && (l == a || l == b) {
                true
            } else {
                watching(w0, g, sh, l, j)
            }) by {
            if l != 0 && lit_var(l) < w.len() && 0 <= j < g.len() {
                let v = lit_var(l) as int;
                assert(watchers(w, v, l > 0) == w[v].pick(l > 0)@);
                assert(watchers(w0, v, l > 0) == w0[v].pick(l > 0)@);
                assert(w[v].first@ == (if a == v || b == v {
                    w0[v].first@.insert(k, g[k as int])
                } else {
                    w0[v].first@
                }));
                assert(w[v].second@ == (if a == -v || b == -v {
                    w0[v].second@.insert(k, g[k as int])
                } else {
                    w0[v].second@
                }));
                if l > 0 {
                    assert(l == v);
                } else {
                    assert(l == -v);
                }
            }
            if j == k {
                if watching(w0, g, sh, l, j) {
                    assert(before.pairs@[j] is Some);
                }
            }
        }
        assert forall|j: int| 0 <= j < self.pairs@.len() && (#[trigger] self.pairs@[j]) is Some implies pair_ok(
            w,
            g,
            sh,
            self.pairs@[j].unwrap(),
            j,
        ) by {
            if j != k {
                assert(pair_ok(w0, g, sh, before.pairs@[j].unwrap(), j));
            }
        }
        assert forall|l: int, j: int| #[trigger] watching(w, g, sh, l, j) implies self.pairs@[j] is Some
            && (l == self.pairs@[j].unwrap().0 || l == self.pairs@[j].unwrap().1) by {
            if j == k && (l == a || l == b) {
            } else {
                assert(watching(w0, g, sh, l, j));
            }
        }
    }

    /// The first literal of the clause in slot `ci`, by ascending
    /// variable, that is unassigned and does not watch the clause yet.
    pub(crate) fn find_replacement(&self, ci: usize) -> (r: Option<Literal>)
        requires
            self.wf(),
            ci < self.clauses@.len(),
            self.clauses@[ci as int].is_live(),
        ensures
            match r {
                Some(l) => lit_in(
                    self.clauses@[ci as int].live_value().variables@,
                    self.clauses@[ci as int].live_value().negatives@,
                    l.as_int(),
                ) && self.unassigned_variables@.contains(lit_var(l.as_int())) && lit_var(l.as_int())
                    < self.watched_clauses@.len() && !watches(
                    self.watched_clauses@,
                    l.as_int(),
                    ci,
                    self.clauses@[ci as int].gen(),
                ),
                None => forall|l: int|
                    lit_in(
                        self.clauses@[ci as int].live_value().variables@,
                        self.clauses@[ci as int].live_value().negatives@,
                        l,
                    ) && self.unassigned_variables@.contains(lit_var(l)) ==> watches(
                        self.watched_clauses@,
                        l,
                        ci,
                        self.clauses@[ci as int].gen(),
                    ),
            },
    {
        proof {
            reveal(store_ok);
            reveal(covered);
        }
        let clause = self.clauses[ci].value_exn();
        let generation: usize = *self.clauses[ci].generation();
        let mut cursor: usize = 0;
        proof {
            clause.variables.lemma_bounded();
            assert(self.sh()[ci as int] == Some(shape_of(*clause)));
        }
        loop
            invariant
                self.wf(),
                ci < self.clauses@.len(),
                self.clauses@[ci as int].is_live(),
                *clause == self.clauses@[ci as int].live_value(),
                generation == self.clauses@[ci as int].gen(),
                clause.wf(),
                cursor <= clause.variables.cap(),
                forall|l: int|
                    lit_in(clause.variables@, clause.negatives@, l)
                        && self.unassigned_variables@.contains(lit_var(l)) && lit_var(l) < cursor
                        ==> watches(self.watched_clauses@, l, ci, generation),
            decreases clause.variables.cap() - cursor,
        {
            match self.unassigned_variables.intersect_first_set_ge(&clause.variables, cursor) {
                None => {
                    return None;
                },
                Some(v) => {
                    proof {
                        reveal(covered);
                        clause.variables.lemma_bounded();
                        assert(self.sh()[ci as int] == Some(shape_of(*clause)));
                        assert(self.sh()[ci as int].unwrap().vars.contains(v as nat));
                    }
                    let pol: bool = !clause.negatives.contains(v);
                    let lit = Literal::new(v, pol);
                    if watch_get(&self.watched_clauses, v, pol, ci) != Some(generation) {
                        return Some(lit);
                    }
                    proof {
                        assert forall|l: int|
                            lit_in(clause.variables@, clause.negatives@, l)
                                && self.unassigned_variables@.contains(lit_var(l)) && lit_var(l) < v
                                + 1 implies watches(self.watched_clauses@, l, ci, generation) by {
                            if lit_var(l) == v {
                                assert(l == lit.as_int());
                            }
                        }
                    }
                    cursor = v + 1;
                },
            }
        }
    }

    /// Whether the invariant holds but for what the clauses that watch
    /// `f` owe, `f` having just been made false at the current level.
    pub closed spec fn owing(&self, f: int) -> bool {
        &&& settle::pending_all(
            self.trail@,
            self.trail_entry_idx_by_var@,
            self.decision_level,
            self.sh(),
            self.pairs@,
            self.ready_for_unit_prop@,
            f,
            Set::new(|k: int| 0 <= k < self.sh().len()),
        )
        &&& level_of(self.trail@, self.trail_entry_idx_by_var@, lit_var(f)) == Some(
            self.decision_level,
        )
    }

    /// Whether the clause in slot `c` watches `f` and was found with all
    /// its literals false while it still owed for that watch.
    pub closed spec fn stuck(&self, c: usize, f: int) -> bool {
        &&& c < self.clauses@.len()
        &&& self.clauses@[c as int].is_live()
        &&& self.pairs@[c as int] is Some
        &&& (self.pairs@[c as int].unwrap().0 == f || self.pairs@[c as int].unwrap().1 == f)
        &&& settle::pending_at(
            self.trail@,
            self.trail_entry_idx_by_var@,
            self.decision_level,
            self.sh(),
            self.pairs@,
            self.ready_for_unit_prop@,
            f,
            set![c as int],
            c as int,
        )
    }

    /// A literal that watches a stored clause is one of the recorded
    /// pair.
    proof fn lemma_watching_pair(&self, k: usize, l: int)
        requires
            self.wf(),
            k < self.clauses@.len(),
            self.clauses@[k as int].is_live(),
            watches(self.watched_clauses@, l, k, self.clauses@[k as int].gen()),
        ensures
            self.pairs@[k as int] is Some,
            l == self.pairs@[k as int].unwrap().0 || l == self.pairs@[k as int].unwrap().1,
    {
        reveal(pairs_ok);
        assert(watching(self.watched_clauses@, gens(self.clauses@), self.sh(), l, k as int));
    }

    /// The watch index lists a stored clause under exactly the literals
    /// of its recorded pair.
    pub proof fn lemma_watched_by(&self, l: int, k: int)
        requires
            self.wf(),
        ensures
            self.watched_by(l, k) <==> self.stored(k) is Some && self.pair_of(k) is Some && (l
                == self.pair_of(k).unwrap().0 || l == self.pair_of(k).unwrap().1),
    {
        reveal(pairs_ok);
        if self.stored(k) is Some && self.pair_of(k) is Some && (l == self.pair_of(k).unwrap().0 || l
            == self.pair_of(k).unwrap().1) {
            assert(pair_ok(
                self.watched_clauses@,
                gens(self.clauses@),
                self.sh(),
                self.pairs@[k].unwrap(),
                k,
            ));
        }
        if self.watched_by(l, k) {
            assert(watching(self.watched_clauses@, gens(self.clauses@), self.sh(), l, k));
        }
    }

    /// The literals of a recorded pair watch their clause.
    proof fn lemma_pair_watches(&self, k: int)
        requires
            self.wf(),
            0 <= k < self.clauses@.len(),
            self.pairs@[k] is Some,
        ensures
            self.clauses@[k].is_live(),
            watches(
                self.watched_clauses@,
                self.pairs@[k].unwrap().0,
                k as usize,
                self.clauses@[k].gen(),
            ),
            watches(
                self.watched_clauses@,
                self.pairs@[k].unwrap().1,
                k as usize,
                self.clauses@[k].gen(),
            ),
    {
        reveal(pairs_ok);
        reveal(store_ok);
        assert(pair_ok(
            self.watched_clauses@,
            gens(self.clauses@),
            self.sh(),
            self.pairs@[k].unwrap(),
            k,
        ));
    }

    /// The clause in slot `k`, which does not watch `f` as it is now
    /// stored, leaves the clauses that are still to be looked at.
    proof fn lemma_skip_unwatching(&self, f: int, rest: Set<int>, k: usize)
        requires
            self.wf(),
            k < self.clauses@.len(),
            !(self.clauses@[k as int].is_live() && watches(
                self.watched_clauses@,
                f,
                k,
                self.clauses@[k as int].gen(),
            )),
            settle::pending_all(
                self.trail@,
                self.trail_entry_idx_by_var@,
                self.decision_level,
                self.sh(),
                self.pairs@,
                self.ready_for_unit_prop@,
                f,
                rest,
            ),
        ensures
            settle::pending_all(
                self.trail@,
                self.trail_entry_idx_by_var@,
                self.decision_level,
                self.sh(),
                self.pairs@,
                self.ready_for_unit_prop@,
                f,
                rest.remove(k as int),
            ),
    {
        let t = self.trail@;
        let p = self.trail_entry_idx_by_var@;
        let sh = self.sh();
        self.lemma_pairs_sound();
        if sh[k as int] is Some {
            if self.pairs@[k as int] is Some {
                self.lemma_pair_watches(k as int);
            }
            settle::lemma_not_watching(
                t,
                p,
                self.decision_level,
                sh,
                self.pairs@,
                self.ready_for_unit_prop@,
                f,
                rest,
                k as int,
            );
        }
        settle::lemma_rest_shrinks(
            t,
            p,
            self.decision_level,
            sh,
            self.pairs@,
            self.ready_for_unit_prop@,
            f,
            rest,
            rest.remove(k as int),
        );
    }

    /// Looks at every clause that watches the negation of `set_literal`,
    /// which has just become false: a stale watcher is dropped, a
    /// satisfied clause is passed over, a clause with another unassigned
    /// literal watches that one instead, a clause left with one literal is
    /// marked ready, and a clause whose literals are all false is returned.
    #[verifier::rlimit(60)]
    #[verifier::spinoff_prover]
    pub(crate) fn update_watched_clauses(&mut self, set_literal: Literal) -> (r: Option<usize>)
        requires
            old(self).wf(),
            set_literal.as_int() != 0,
            lit_var(set_literal.as_int()) < old(self).num_vars(),
            !old(self).unassigned_variables@.contains(lit_var(set_literal.as_int())),
        ensures
            final(self).wf(),
            match r {
                Some(c) => final(self).conflicting(c),
                None => true,
            },
            old(self).owing(-set_literal.as_int()) ==> match r {
                Some(c) => final(self).loose() && final(self).stuck(c, -set_literal.as_int()),
                None => final(self).settled(),
            },
            old(self).paired() ==> final(self).paired(),
            old(self).at_top(set_literal.as_int()) ==> match r {
                Some(c) => final(self).raised(c),
                None => true,
            },
            r is None ==> final(self).no_stale(-set_literal.as_int()),
            match r {
                Some(c) => final(self).no_stale_upto(-set_literal.as_int(), c),
                None => true,
            },
            *final(self) == (Engine {
                watched_clauses: final(self).watched_clauses,
                ready_for_unit_prop: final(self).ready_for_unit_prop,
                debug_writer: final(self).debug_writer,
                pairs: final(self).pairs,
                ..*old(self)
            }),
    {
        let ghost track = self.owing(-set_literal.as_int());
        if self.debug_writer.is_some() {
            trace::log(&mut self.debug_writer, trace::line_update(set_literal.to_isize()));
        }
        proof {
            self.lemma_wf_after_watch(*old(self));
        }
        let literal = set_literal.negate();
        let ghost f = literal.as_int();
        let var: usize = literal.variable();
        let pol: bool = literal.value();
        let keys = watch_keys(&self.watched_clauses, var, pol, Ghost(self.clauses@.len()));
        let ghost rest = Set::new(|k: int| exists|j: int| 0 <= j < keys@.len() && keys@[j] == k);
        proof {
            if track {
                let all = Set::new(|k: int| 0 <= k < self.sh().len());
                self.lemma_pairs_sound();
                assert(rest.subset_of(all)) by {
                    assert forall|k: int| rest.contains(k) implies all.contains(k) by {
                        let j = choose|j: int| 0 <= j < keys@.len() && keys@[j] == k;
                        assert(keys@[j] < self.clauses@.len());
                    }
                }
                assert forall|k: int|
                    0 <= k < self.sh().len() && self.sh()[k] is Some && all.contains(k)
                        && !#[trigger] rest.contains(k) implies self.pairs@[k] is Some && (
                self.pairs@[k].unwrap().0 == f || self.pairs@[k].unwrap().1 == f
                    ==> settle::excused(
                    self.trail@,
                    self.trail_entry_idx_by_var@,
                    self.decision_level,
                    self.sh()[k].unwrap(),
                    self.ready_for_unit_prop@.contains(k as nat),
                    f,
                )) && settle::ready_ok(
                    self.trail@,
                    self.trail_entry_idx_by_var@,
                    self.sh()[k].unwrap(),
                    self.pairs@[k].unwrap(),
                    self.ready_for_unit_prop@.contains(k as nat),
                ) by {
                    reveal(settle::pending_all);
                    reveal(store_ok);
                    assert(settle::pending_at(
                        self.trail@,
                        self.trail_entry_idx_by_var@,
                        self.decision_level,
                        self.sh(),
                        self.pairs@,
                        self.ready_for_unit_prop@,
                        f,
                        all,
                        k,
                    ));
                    self.lemma_pair_watches(k);
                    if self.pairs@[k].unwrap().0 == f || self.pairs@[k].unwrap().1 == f {
                        assert(watchers(self.watched_clauses@, var as int, pol).contains_key(
                            k as usize,
                        ));
                        assert(keys@.to_set().contains(k as usize));
                        let j = choose|j: int| 0 <= j < keys@.len() && keys@[j] == k as usize;
                        assert(keys@[j] == k);
                        assert(rest.contains(k));
                    }
                    settle::lemma_not_watching(
                        self.trail@,
                        self.trail_entry_idx_by_var@,
                        self.decision_level,
                        self.sh(),
                        self.pairs@,
                        self.ready_for_unit_prop@,
                        f,
                        all,
                        k,
                    );
                }
                settle::lemma_rest_shrinks(
                    self.trail@,
                    self.trail_entry_idx_by_var@,
                    self.decision_level,
                    self.sh(),
                    self.pairs@,
                    self.ready_for_unit_prop@,
                    f,
                    all,
                    rest,
                );
            }
        }
        let mut i: usize = 0;
        while i < keys.len()
            invariant
                i <= keys@.len(),
                self.wf(),
                var < self.num_vars(),
                var == lit_var(literal.as_int()),
                forall|j: int| 0 <= j < keys@.len() ==> (#[trigger] keys@[j]) < self.clauses@.len(),
                literal.as_int() == -set_literal.as_int(),
                f == literal.as_int(),
                literal.as_int() != 0,
                pol == (literal.as_int() > 0),
                !self.unassigned_variables@.contains(var as nat),
                forall|k: int|
                    rest.contains(k) ==> exists|j: int| i <= j < keys@.len() && keys@[j] == k,
                forall|a: int, b: int|
                    0 <= a < b < keys@.len() ==> (#[trigger] keys@[a]) < (#[trigger] keys@[b]),
                track == old(self).owing(-set_literal.as_int()),
                old(self).paired() ==> self.paired(),
                forall|k: usize| #[trigger]
                    watchers(self.watched_clauses@, var as int, pol).contains_key(k) ==> rest.contains(
                        k as int,
                    ) || watching(
                        self.watched_clauses@,
                        gens(self.clauses@),
                        self.sh(),
                        f,
                        k as int,
                    ),
                track ==> settle::pending_all(
                    self.trail@,
                    self.trail_entry_idx_by_var@,
                    self.decision_level,
                    self.sh(),
                    self.pairs@,
                    self.ready_for_unit_prop@,
                    f,
                    rest,
                ) && level_of(self.trail@, self.trail_entry_idx_by_var@, lit_var(f)) == Some(
                    self.decision_level,
                ),
                *self == (Engine {
                    watched_clauses: self.watched_clauses,
                    ready_for_unit_prop: self.ready_for_unit_prop,
                    debug_writer: self.debug_writer,
                    pairs: self.pairs,
                    ..*old(self)
                }),
            decreases keys@.len() - i,
        {
            let clause_idx: usize = keys[i];
            let ghost at_start = *self;
            let ghost rest0 = rest;
            proof {
                rest = rest0.remove(clause_idx as int);
                assert forall|k: int| rest.contains(k) implies exists|j: int|
                    i + 1 <= j < keys@.len() && keys@[j] == k by {
                    let j = choose|j: int| i <= j < keys@.len() && keys@[j] == k;
                    assert(j != i);
                }
            }
            i = i + 1;
            let generation: usize = match watch_get(&self.watched_clauses, var, pol, clause_idx) {
                None => {
                    proof {
                        if track {
                            self.lemma_skip_unwatching(f, rest0, clause_idx);
                        }
                    }
                    continue ;
                },
                Some(g) => g,
            };
            if *self.clauses[clause_idx].generation() != generation
                || self.clauses[clause_idx].value().is_none() {
                proof {
                    if track {
                        self.lemma_skip_unwatching(f, rest0, clause_idx);
                    }
                }
                watch_remove(
                    &mut self.watched_clauses,
                    var,
                    pol,
                    clause_idx,
                    Ghost(self.clauses@.len()),
                );
                proof {
                    self.lemma_pairs_after_drop(at_start, var, pol, clause_idx);
                    self.lemma_wf_after_watch(at_start);
                }
                continue ;
            }
            proof {
                reveal(store_ok);
                self.lemma_watching_pair(clause_idx, f);
                self.lemma_pairs_sound();
                self.lemma_link_sat(clause_idx as int);
                assert(self.sh()[clause_idx as int] == Some(
                    shape_of(self.clauses@[clause_idx as int].live_value()),
                ));
            }
            if self.is_satisfied(self.clauses[clause_idx].value_exn()) {
                proof {
                    if track {
                        settle::lemma_seen_satisfied(
                            self.trail@,
                            self.trail_entry_idx_by_var@,
                            self.decision_level,
                            self.sh(),
                            self.pairs@,
                            self.ready_for_unit_prop@,
                            f,
                            rest0,
                            clause_idx as int,
                        );
                        settle::lemma_rest_shrinks(
                            self.trail@,
                            self.trail_entry_idx_by_var@,
                            self.decision_level,
                            self.sh(),
                            self.pairs@,
                            self.ready_for_unit_prop@,
                            f,
                            rest0,
                            rest,
                        );
                    }
                }
                continue ;
            }
            match self.find_replacement(clause_idx) {
                None => {
                    match self.try_get_unit_literal(self.clauses[clause_idx].value_exn()) {
                        None => {
                            if self.all_false(self.clauses[clause_idx].value_exn()) {
                                proof {
                                    self.lemma_conflicting(clause_idx);
                                    if old(self).at_top(set_literal.as_int()) {
                                        assert(settle::pair_lits(
                                            self.sh()[clause_idx as int].unwrap(),
                                            self.pairs@[clause_idx as int].unwrap(),
                                        ));
                                        assert(self.clauses@[clause_idx as int].live_value().variables@.contains(
                                            lit_var(f),
                                        ));
                                        assert(self.raised(clause_idx));
                                    }
                                    if track {
                                        settle::lemma_pending_loose(
                                            self.trail@,
                                            self.trail_entry_idx_by_var@,
                                            self.decision_level,
                                            self.sh(),
                                            self.pairs@,
                                            self.ready_for_unit_prop@,
                                            f,
                                            rest0,
                                        );
                                        reveal(settle::pending_all);
                                        assert(settle::pending_at(
                                            self.trail@,
                                            self.trail_entry_idx_by_var@,
                                            self.decision_level,
                                            self.sh(),
                                            self.pairs@,
                                            self.ready_for_unit_prop@,
                                            f,
                                            rest0,
                                            clause_idx as int,
                                        ));
                                        assert(set![clause_idx as int].contains(clause_idx as int));
                                        assert(settle::pending_at(
                                            self.trail@,
                                            self.trail_entry_idx_by_var@,
                                            self.decision_level,
                                            self.sh(),
                                            self.pairs@,
                                            self.ready_for_unit_prop@,
                                            f,
                                            set![clause_idx as int],
                                            clause_idx as int,
                                        ));
                                        assert(self.stuck(clause_idx, f));
                                        assert(self.loose());
                                    }
                                }
                                return Some(clause_idx);
                            }
                            proof {
                                self.lemma_one_left(clause_idx, f);
                            }
                        },
                        Some(unit_literal) => {
                            if self.debug_writer.is_some() {
                                let text = self.clause_string(clause_idx);
                                trace::log(
                                    &mut self.debug_writer,
                                    trace::line_found_unit(
                                        unit_literal.to_isize(),
                                        literal.to_isize(),
                                        &text,
                                    ),
                                );
                            }
                            proof {
                                if track {
                                    self.lemma_link_unit(clause_idx as int, unit_literal.as_int());
                                    self.lemma_link(
                                        clause_idx as int,
                                        lit_var(unit_literal.as_int()),
                                    );
                                    self.lemma_watching_pair(clause_idx, unit_literal.as_int());
                                    settle::lemma_seen_unit(
                                        self.trail@,
                                        self.trail_entry_idx_by_var@,
                                        self.decision_level,
                                        self.sh(),
                                        self.pairs@,
                                        self.ready_for_unit_prop@,
                                        f,
                                        unit_literal.as_int(),
                                        rest0,
                                        clause_idx as int,
                                    );
                                }
                            }
                            self.ready_for_unit_prop.set(clause_idx);
                            proof {
                                self.lemma_wf_after_watch(at_start);
                            }
                        },
                    }
                },
                Some(to_replace) => {
                    if self.debug_writer.is_some() {
                        let text = self.clause_string(clause_idx);
                        trace::log(
                            &mut self.debug_writer,
                            trace::line_replace(literal.to_isize(), to_replace.to_isize(), &text),
                        );
                    }
                    proof {
                        reveal(pairs_ok);
                        reveal(covered);
                        assert(watching(
                            self.watched_clauses@,
                            gens(self.clauses@),
                            self.sh(),
                            literal.as_int(),
                            clause_idx as int,
                        ));
                        assert(pair_ok(
                            self.watched_clauses@,
                            gens(self.clauses@),
                            self.sh(),
                            self.pairs@[clause_idx as int].unwrap(),
                            clause_idx as int,
                        ));
                        if lit_var(literal.as_int()) == lit_var(to_replace.as_int()) {
                            assert(literal.as_int() == to_replace.as_int() || literal.as_int()
                                == -to_replace.as_int());
                            assert(false);
                        }
                    }
                    watch_remove(
                        &mut self.watched_clauses,
                        var,
                        pol,
                        clause_idx,
                        Ghost(self.clauses@.len()),
                    );
                    watch_insert(
                        &mut self.watched_clauses,
                        to_replace.variable(),
                        to_replace.value(),
                        clause_idx,
                        generation,
                        Ghost(self.clauses@.len()),
                    );
                    proof {
                        let old_pair = self.pairs@[clause_idx as int].unwrap();
                        if track {
                            at_start.lemma_link(clause_idx as int, lit_var(to_replace.as_int()));
                            assert(to_replace.as_int() != old_pair.0 && to_replace.as_int()
                                != old_pair.1) by {
                                at_start.lemma_pair_watches(clause_idx as int);
                            }
                            settle::lemma_seen_moved(
                                self.trail@,
                                self.trail_entry_idx_by_var@,
                                self.decision_level,
                                self.sh(),
                                self.pairs@,
                                self.pairs@.update(
                                    clause_idx as int,
                                    Some(Self::exchanged(old_pair, f, to_replace.as_int())),
                                ),
                                self.ready_for_unit_prop@,
                                f,
                                to_replace.as_int(),
                                rest0,
                                clause_idx as int,
                            );
                        }
                        self.pairs = Ghost(
                            self.pairs@.update(
                                clause_idx as int,
                                Some(Self::exchanged(old_pair, f, to_replace.as_int())),
                            ),
                        );
                        self.lemma_pairs_after_move(
                            at_start,
                            literal.as_int(),
                            to_replace.as_int(),
                            clause_idx,
                        );
                        self.lemma_wf_after_watch(at_start);
                    }
                },
            }
        }
        proof {
            if track {
                assert(rest =~= Set::<int>::empty());
                settle::lemma_pending_done(
                    self.trail@,
                    self.trail_entry_idx_by_var@,
                    self.decision_level,
                    self.sh(),
                    self.pairs@,
                    self.ready_for_unit_prop@,
                    f,
                );
            }
        }
        None
    }

    /// A stored clause that watches the false literal `f`, is not
    /// satisfied, has no unassigned literal that does not watch it, and
    /// is not left with every literal false, is left with one literal.
    proof fn lemma_one_left(&self, k: usize, f: int)
        requires
            self.wf(),
            k < self.clauses@.len(),
            self.clauses@[k as int].is_live(),
            f != 0,
            !self.unassigned_variables@.contains(lit_var(f)),
            watches(self.watched_clauses@, f, k, self.clauses@[k as int].gen()),
            !sat_under(
                shape_of(self.clauses@[k as int].live_value()),
                self.assignments@,
                self.unassigned_variables@,
            ),
            forall|l: int|
                lit_in(
                    self.clauses@[k as int].live_value().variables@,
                    self.clauses@[k as int].live_value().negatives@,
                    l,
                ) && self.unassigned_variables@.contains(lit_var(l)) ==> watches(
                    self.watched_clauses@,
                    l,
                    k,
                    self.clauses@[k as int].gen(),
                ),
            !(forall|u: nat|
                self.clauses@[k as int].live_value().variables@.contains(u)
                    ==> !self.unassigned_variables@.contains(u)),
        ensures
            exists|l: int| #[trigger]
                unit_under(
                    shape_of(self.clauses@[k as int].live_value()),
                    l,
                    self.assignments@,
                    self.unassigned_variables@,
                ),
    {
        let c = self.clauses@[k as int].live_value();
        let s = shape_of(c);
        let u0 = choose|u: nat|
            c.variables@.contains(u) && self.unassigned_variables@.contains(u);
        let l0: int = if c.negatives@.contains(u0) {
            -(u0 as int)
        } else {
            u0 as int
        };
        reveal(store_ok);
        assert(lit_in(c.variables@, c.negatives@, l0));
        self.lemma_watching_pair(k, l0);
        self.lemma_watching_pair(k, f);
        let pair = self.pairs@[k as int].unwrap();
        assert(l0 != f);
        assert forall|u: nat| #[trigger]
            s.vars.contains(u) && u != lit_var(l0) implies !self.unassigned_variables@.contains(u)
            && (self.assignments@.contains(u) == s.negs.contains(u)) by {
            if self.unassigned_variables@.contains(u) {
                let l: int = if c.negatives@.contains(u) {
                    -(u as int)
                } else {
                    u as int
                };
                assert(lit_in(c.variables@, c.negatives@, l));
                self.lemma_watching_pair(k, l);
                assert(l != f && l != l0);
                assert(false);
            }
            assert(s.vars.contains(u));
        }
        assert(unit_under(s, l0, self.assignments@, self.unassigned_variables@));
    }

    /// Whether the entry can go on the trail next: its literal is of an
    /// unassigned variable; a decision opens the next level; a forced
    /// literal stays at the current level and is the one literal left of
    /// its clause.
    pub closed spec fn admits(&self, entry: TrailEntry) -> bool {
        &&& entry.literal.as_int() != 0
        &&& self.unassigned_variables@.contains(entry_var(entry))
        &&& match entry.reason {
            Reason::Decision(l) => l == entry.literal && entry.decision_level
                == self.decision_level + 1,
            Reason::ClauseIdx(k) => entry.decision_level == self.decision_level && k
                < self.clauses@.len() && self.clauses@[k as int].is_live() && unit_under(
                shape_of(self.clauses@[k as int].live_value()),
                entry.literal.as_int(),
                self.assignments@,
                self.unassigned_variables@,
            ),
        }
    }

    /// Puts the entry on the trail: its variable takes the literal's
    /// value and is no longer unassigned, and the clause that forced it
    /// counts one entry more.
    pub(crate) fn push_entry(&mut self, entry: TrailEntry)
        requires
            old(self).wf(),
            old(self).admits(entry),
        ensures
            final(self).wf(),
            final(self).trail@ == old(self).trail@.push(entry),
            final(self).sh() == old(self).sh(),
            final(self).clauses@.len() == old(self).clauses@.len(),
            final(self).unassigned_variables@ == old(self).unassigned_variables@.remove(
                entry_var(entry),
            ),
            final(self).decision_level == entry.decision_level,
            final(self).trail_entry_idx_by_var@ == old(self).trail_entry_idx_by_var@.update(
                entry_var(entry) as int,
                Some(old(self).trail@.len() as usize),
            ),
            *final(self) == (Engine {
                literal_by_score: final(self).literal_by_score,
                trail: final(self).trail,
                trail_entry_idx_by_var: final(self).trail_entry_idx_by_var,
                unassigned_variables: final(self).unassigned_variables,
                assignments: final(self).assignments,
                clauses: final(self).clauses,
                decision_level: final(self).decision_level,
                debug_writer: final(self).debug_writer,
                ..*old(self)
            }),
    {
        proof {
            reveal(assign_ok);
            reveal(trail_ok);
        }
        if self.debug_writer.is_some() {
            trace::log(
                &mut self.debug_writer,
                trace::line_push(entry.decision_level, entry.literal.to_isize()),
            );
        }
        let literal = entry.literal;
        let var: usize = literal.variable();
        if literal.value() {
            self.assignments.set(var);
        } else {
            self.assignments.clear(var);
        }
        match entry.reason {
            Reason::Decision(_) => {},
            Reason::ClauseIdx(clause_idx) => {
                count_unit(&mut self.clauses, clause_idx, true);
            },
        }
        self.trail_entry_idx_by_var.set(var, Some(self.trail.len()));
        self.unassigned_variables.clear(var);
        ranked::unrank(&mut self.literal_by_score, &self.score_for_literal, var);
        self.decision_level = entry.decision_level;
        self.trail.push(entry);
        proof {
            vstd::std_specs::vec::axiom_spec_len(&self.trail);
            ranked::lemma_ranked_without(
                old(self).literal_by_score@,
                self.score_for_literal@,
                old(self).unassigned_variables@,
                var as nat,
            );
            self.lemma_wf_after_push(*old(self), entry);
        }
    }

    /// The invariant is kept where an entry that the trail admits is put
    /// on it.
    proof fn lemma_wf_after_push(&self, before: Engine<B>, entry: TrailEntry)
        requires
            before.wf(),
            before.admits(entry),
            self.trail@ == before.trail@.push(entry),
            self.trail@.len() <= usize::MAX,
            self.trail_entry_idx_by_var@ == before.trail_entry_idx_by_var@.update(
                entry_var(entry) as int,
                Some(before.trail@.len() as usize),
            ),
            self.unassigned_variables.wf(),
            self.unassigned_variables@ == before.unassigned_variables@.remove(entry_var(entry)),
            self.assignments.wf(),
            self.assignments@ == if entry_val(entry) {
                before.assignments@.insert(entry_var(entry))
            } else {
                before.assignments@.remove(entry_var(entry))
            },
            self.decision_level == entry.decision_level,
            self.clauses@.len() == before.clauses@.len(),
            match entry.reason {
                Reason::Decision(_) => self.clauses@ == before.clauses@,
                Reason::ClauseIdx(k) => k < before.clauses@.len() && (forall|j: int|
                    0 <= j < before.clauses@.len() && j != k ==> self.clauses@[j]
                        == before.clauses@[j]) && self.clauses@[k as int].is_live()
                    && self.clauses@[k as int].gen() == before.clauses@[k as int].gen()
                    && self.clauses@[k as int].live_value().num_units >= 1
                    && self.clauses@[k as int].live_value() == (Clause {
                    num_units: self.clauses@[k as int].live_value().num_units,
                    ..before.clauses@[k as int].live_value()
                }),
            },
            *self == (Engine {
                literal_by_score: self.literal_by_score,
                trail: self.trail,
                trail_entry_idx_by_var: self.trail_entry_idx_by_var,
                unassigned_variables: self.unassigned_variables,
                assignments: self.assignments,
                clauses: self.clauses,
                decision_level: self.decision_level,
                debug_writer: self.debug_writer,
                ..before
            }),
            ranked_ok(
                self.literal_by_score@,
                self.score_for_literal@,
                self.unassigned_variables@,
            ),
        ensures
            self.wf(),
            self.sh() == before.sh(),
    {
        assert(crate::trail::levels_step(self.trail@)) by {
            reveal(trail_ok);
            crate::trail::lemma_levels_push(before.trail@, entry);
        }
        reveal(trail_ok);
        reveal(assign_ok);
        reveal(units_ok);
        reveal(reasons_ok);
        reveal(covered);
        let t0 = before.trail@;
        let p0 = before.trail_entry_idx_by_var@;
        let t = self.trail@;
        let p = self.trail_entry_idx_by_var@;
        let n = t0.len() as int;
        let var = entry_var(entry);
        let sh = before.sh();
        assert(self.sh() =~= sh) by {
            assert forall|k: int| 0 <= k < sh.len() implies self.sh()[k] == sh[k] by {
                if entry.reason is ClauseIdx && k == entry.reason->ClauseIdx_0 {
                    assert(before.clauses@[k].is_live());
                }
            }
        }
        self.lemma_same_gens(before);
        assert(p0[var as int] is None);
        assert forall|i: int| 0 <= i < n implies entry_var(#[trigger] t0[i]) != var && t[i]
            == t0[i] by {
            assert(p0[entry_var(t0[i]) as int] == Some(i as usize));
        }
        assert(before.decision_level <= n) by {
            if n > 0 {
                assert(t0[n - 1].decision_level <= n);
            }
        }
        assert(trail_ok(t, p, self.decision_level)) by {
            assert forall|i: int| 0 <= i < t.len() implies {
                let x = #[trigger] t[i];
                &&& x.literal.as_int() != 0
                &&& entry_var(x) < p.len()
                &&& p[entry_var(x) as int] == Some(i as usize)
                &&& x.decision_level <= i + 1
                &&& (x.reason is Decision ==> x.decision_level >= 1 && x.reason->Decision_0
                    == x.literal)
            } by {
                if i < n {
                    assert(t[i] == t0[i]);
                    assert(entry_var(t0[i]) != var);
                }
            }
            assert forall|i: int, j: int| 0 <= i <= j < t.len() implies (#[trigger] t[i]).decision_level
                <= (#[trigger] t[j]).decision_level by {
                if j < n {
                    assert(t[i] == t0[i] && t[j] == t0[j]);
                } else if i < n {
                    assert(t[i] == t0[i]);
                    assert(t0[i].decision_level <= t0[n - 1].decision_level);
                }
            }
            assert forall|v: int| 0 <= v < p.len() && (#[trigger] p[v]) is Some implies p[v].unwrap()
                < t.len() && entry_var(t[p[v].unwrap() as int]) == v by {
                if v != var {
                    assert(p0[v] is Some);
                    assert(t[p[v].unwrap() as int] == t0[p0[v].unwrap() as int]);
                }
            }
        }
        assert(assign_ok(
            t,
            p,
            self.assignments@,
            self.unassigned_variables@,
            self.all_variables@,
        )) by {
            assert forall|i: int| 0 <= i < t.len() implies self.assignments@.contains(
                entry_var(#[trigger] t[i]),
            ) == entry_val(t[i]) && self.all_variables@.contains(entry_var(t[i])) by {
                if i < n {
                    assert(t[i] == t0[i]);
                    assert(entry_var(t0[i]) != var);
                }
            }
        }
        assert(reasons_ok(t, p, self.sh())) by {
            assert forall|i: int| 0 <= i < t.len() implies #[trigger] crate::trail::reason_ok(
                t,
                p,
                sh,
                i,
            ) by {
                if i < n {
                    assert(crate::trail::reason_ok(t0, p0, sh, i));
                    assert(t[i] == t0[i]);
                    if t[i].reason is ClauseIdx {
                        let k = t[i].reason->ClauseIdx_0;
                        let s = sh[k as int].unwrap();
                        assert forall|u: nat| #[trigger]
                            s.vars.contains(u) && u != entry_var(t[i]) implies false_at(
                            t,
                            p,
                            s.negs,
                            u,
                            i,
                        ) by {
                            assert(false_at(t0, p0, s.negs, u, i));
                            let q = p0[u as int].unwrap() as int;
                            assert(t[q] == t0[q]);
                        }
                    }
                } else if entry.reason is ClauseIdx {
                    let k = entry.reason->ClauseIdx_0;
                    let s = sh[k as int].unwrap();
                    assert(s == shape_of(before.clauses@[k as int].live_value()));
                    assert forall|u: nat| #[trigger] s.vars.contains(u) && u != var implies false_at(
                        t,
                        p,
                        s.negs,
                        u,
                        n,
                    ) by {
                        assert(sh[k as int].unwrap().vars.contains(u));
                        assert(!before.unassigned_variables@.contains(u));
                        assert(p0[u as int] is Some);
                        let q = p0[u as int].unwrap() as int;
                        assert(entry_var(t0[q]) == u);
                        assert(t[q] == t0[q]);
                    }
                }
            }
        }
        assert(units_ok(t, self.clauses@)) by {
            assert forall|i: int| 0 <= i < t.len() && (#[trigger] t[i]).reason is ClauseIdx implies {
                let k = t[i].reason->ClauseIdx_0;
                k < self.clauses@.len() && self.clauses@[k as int].is_live()
                    && self.clauses@[k as int].live_value().num_units >= 1
            } by {
                if i < n {
                    assert(t[i] == t0[i]);
                    let k = t[i].reason->ClauseIdx_0;
                    if entry.reason is ClauseIdx && entry.reason->ClauseIdx_0 == k {
                    } else {
                        assert(self.clauses@[k as int] == before.clauses@[k as int]);
                    }
                }
            }
        }
        assert(store_ok(self.clauses@)) by {
            reveal(store_ok);
            assert forall|k: int|
                0 <= k < self.clauses@.len() && (#[trigger] self.clauses@[k]).is_live() implies self.clauses@[k].live_value().wf()
                && self.clauses@[k].live_value().score <= SCORE_CAP by {
                assert(before.clauses@[k].is_live());
            }
        }
        assert(covered(self.sh(), p, self.all_variables@, self.unassigned_variables@)) by {
            assert forall|k: int, u: nat|
                0 <= k < sh.len() && sh[k] is Some && #[trigger] sh[k].unwrap().vars.contains(
                    u,
                ) implies u < p.len() && self.all_variables@.contains(u) && (
                self.unassigned_variables@.contains(u) || p[u as int] is Some) by {
                assert(u < p0.len());
            }
        }
        assert(free_ok(self.clauses@, self.free@, self.clauses_first_tombstone)) by {
            reveal(free_ok);
            assert forall|j: int| 0 <= j < self.free@.len() implies (#[trigger] self.free@[j])
                < self.clauses@.len() && !self.clauses@[self.free@[j] as int].is_live()
                && self.clauses@[self.free@[j] as int].gen() < usize::MAX
                && self.clauses@[self.free@[j] as int].next_free() == if j + 1 < self.free@.len() {
                Some(self.free@[j + 1])
            } else {
                None
            } by {
                assert(!before.clauses@[self.free@[j] as int].is_live());
            }
        }
        assert(watch_ok(self.watched_clauses@, self.clauses@.len())) by {
            reveal(watch_ok);
        }
    }

    /// Puts the entry on the trail and brings the watch index up to
    /// date; returns a clause whose literals are all false, if the watch
    /// index comes upon one.
    pub(crate) fn add_to_trail(&mut self, trail_entry: TrailEntry) -> (r: Option<usize>)
        requires
            old(self).wf(),
            old(self).admits(trail_entry),
        ensures
            final(self).wf(),
            final(self).formula() == old(self).formula(),
            final(self).trail@ == old(self).trail@.push(trail_entry),
            final(self).sh() == old(self).sh(),
            final(self).unassigned_variables@ == old(self).unassigned_variables@.remove(
                entry_var(trail_entry),
            ),
            final(self).exhausted == old(self).exhausted,
            match r {
                Some(c) => final(self).conflicting(c),
                None => true,
            },
            old(self).awaits(trail_entry) ==> match r {
                Some(c) => final(self).loose() && final(self).stuck(c, -trail_entry.literal.as_int()),
                None => final(self).settled(),
            },
            old(self).paired() ==> final(self).paired(),
            final(self).value_on_trail(entry_var(trail_entry)) == Some(entry_val(trail_entry)),
            match r {
                Some(c) => final(self).raised(c),
                None => true,
            },
            final(self).decision_level == trail_entry.decision_level,
            final(self).trail_entry_idx_by_var@ == old(self).trail_entry_idx_by_var@.update(
                entry_var(trail_entry) as int,
                Some(old(self).trail@.len() as usize),
            ),
    {
        proof {
            reveal(assign_ok);
        }
        let ghost track = self.awaits(trail_entry);
        self.push_entry(trail_entry);
        proof {
            if track {
                let t0 = old(self).trail@;
                let p0 = old(self).trail_entry_idx_by_var@;
                let l0 = old(self).decision_level;
                old(self).lemma_pairs_sound();
                assert(trail_ok(t0, p0, l0));
                assert(trail_ok(self.trail@, self.trail_entry_idx_by_var@, self.decision_level));
                assert(settle::pushed(
                    t0,
                    p0,
                    self.trail@,
                    self.trail_entry_idx_by_var@,
                    trail_entry,
                ));
                let from: Option<int> = match trail_entry.reason {
                    Reason::Decision(_) => None,
                    Reason::ClauseIdx(k) => Some(k as int),
                };
                let ready0 = match trail_entry.reason {
                    Reason::Decision(_) => old(self).ready_for_unit_prop@,
                    Reason::ClauseIdx(k) => old(self).ready_for_unit_prop@.insert(k as nat),
                };
                match trail_entry.reason {
                    Reason::Decision(_) => {},
                    Reason::ClauseIdx(k) => {
                        old(self).lemma_link_unit(k as int, trail_entry.literal.as_int());
                        assert(old(self).sh()[k as int] == Some(
                            shape_of(old(self).clauses@[k as int].live_value()),
                        ));
                        assert(ready0.remove(k as nat) =~= old(self).ready_for_unit_prop@);
                    },
                }
                settle::lemma_after_push(
                    t0,
                    p0,
                    l0,
                    self.trail@,
                    self.trail_entry_idx_by_var@,
                    self.decision_level,
                    trail_entry,
                    self.sh(),
                    self.pairs@,
                    ready0,
                    from,
                );
                settle::lemma_pushed(
                    t0,
                    p0,
                    l0,
                    self.trail@,
                    self.trail_entry_idx_by_var@,
                    trail_entry,
                    entry_var(trail_entry),
                );
                assert(self.owing(-trail_entry.literal.as_int()));
            }
        }
        proof {
            self.lemma_newest_at_top(*old(self), trail_entry);
        }
        let r = self.update_watched_clauses(trail_entry.literal);
        proof {
            assert(self.trail@[old(self).trail@.len() as int] == trail_entry);
            self.lemma_trail_polarity(old(self).trail@.len() as int);
        }
        r
    }

    /// The entry just put on the trail is of the current level.
    proof fn lemma_newest_at_top(&self, before: Engine<B>, entry: TrailEntry)
        requires
            before.wf(),
            before.admits(entry),
            self.trail@ == before.trail@.push(entry),
            self.decision_level == entry.decision_level,
            self.trail_entry_idx_by_var@ == before.trail_entry_idx_by_var@.update(
                entry_var(entry) as int,
                Some(before.trail@.len() as usize),
            ),
        ensures
            self.at_top(entry.literal.as_int()),
    {
        reveal(trail_ok);
        reveal(assign_ok);
        assert(entry_var(entry) < before.trail_entry_idx_by_var@.len());
    }

    /// What it takes to put an entry on the trail: its literal is not
    /// zero and its variable is unassigned; a decision is admitted
    /// exactly where it also names its own literal and opens the next
    /// level, and the invariant is ready for it exactly where it holds
    /// and no clause is ready.
    pub proof fn lemma_admits(&self, e: TrailEntry)
        ensures
            self.admits(e) ==> e.literal.as_int() != 0 && self.unassigned(entry_var(e)),
            e.reason is Decision ==> (self.admits(e) <==> e.literal.as_int() != 0 && self.unassigned(
                entry_var(e),
            ) && e.reason == Reason::Decision(e.literal) && e.decision_level == self.level() + 1),
            e.reason is Decision ==> (self.awaits(e) <==> self.settled() && self.ready_empty()),
    {
    }

    /// Whether the invariant is ready for the entry: for a decision it
    /// holds and no clause is ready; for a forced literal it held before
    /// the clause that forces it was taken off the ready set.
    pub closed spec fn awaits(&self, entry: TrailEntry) -> bool {
        match entry.reason {
            Reason::Decision(_) => self.settled() && self.ready_empty(),
            Reason::ClauseIdx(k) => settle::settled_all(
                self.trail@,
                self.trail_entry_idx_by_var@,
                self.decision_level,
                self.sh(),
                self.pairs@,
                self.ready_for_unit_prop@.insert(k as nat),
            ) && !self.ready_for_unit_prop@.contains(k as nat),
        }
    }

    /// Forces `literal`, the one literal left of the clause in slot
    /// `clause_idx`, at the current level.
    pub(crate) fn with_unit_clause(&mut self, literal: Literal, clause_idx: usize) -> (r: Option<
        usize,
    >)
        requires
            old(self).wf(),
            old(self).admits(
                TrailEntry {
                    literal,
                    decision_level: old(self).decision_level,
                    reason: Reason::ClauseIdx(clause_idx),
                },
            ),
        ensures
            final(self).wf(),
            final(self).formula() == old(self).formula(),
            final(self).trail@ == old(self).trail@.push(
                TrailEntry {
                    literal,
                    decision_level: old(self).decision_level,
                    reason: Reason::ClauseIdx(clause_idx),
                },
            ),
            final(self).sh() == old(self).sh(),
            final(self).unassigned_variables@ == old(self).unassigned_variables@.remove(
                lit_var(literal.as_int()),
            ),
            final(self).exhausted == old(self).exhausted,
            match r {
                Some(c) => final(self).conflicting(c),
                None => true,
            },
            old(self).awaits(
                TrailEntry {
                    literal,
                    decision_level: old(self).decision_level,
                    reason: Reason::ClauseIdx(clause_idx),
                },
            ) ==> match r {
                Some(c) => final(self).loose(),
                None => final(self).settled(),
            },
            old(self).paired() ==> final(self).paired(),
            match r {
                Some(c) => final(self).raised(c),
                None => true,
            },
            final(self).decision_level == old(self).decision_level,
    {
        let ghost entry = TrailEntry {
            literal,
            decision_level: self.decision_level,
            reason: Reason::ClauseIdx(clause_idx),
        };
        let ghost track = self.awaits(entry);
        if self.debug_writer.is_some() {
            proof {
                reveal(store_ok);
                reveal(trail_ok);
            }
            let text = self.clause_string(clause_idx);
            let ready = self.ready_for_unit_prop.iter();
            let mut texts: Vec<String> = Vec::new();
            let mut i: usize = 0;
            while i < ready.len()
                invariant
                    i <= ready@.len(),
                    self.wf(),
                    crate::fixed_bitset::ascending_listing(ready@, self.ready_for_unit_prop@),
                    *self == *old(self),
                decreases ready@.len() - i,
            {
                assert(self.ready_for_unit_prop@.contains(ready@[i as int] as nat));
                if self.clauses[ready[i]].value().is_some() {
                    proof {
                        reveal(store_ok);
                    }
                    texts.push(self.clause_string(ready[i]));
                }
                i = i + 1;
            }
            trace::log(
                &mut self.debug_writer,
                trace::line_unit_clause(literal.to_isize(), &text, &trace::joined(&texts)),
            );
        }
        let decision_level: usize = self.decision_level;
        let trail_entry = TrailEntry {
            literal,
            decision_level,
            reason: Reason::ClauseIdx(clause_idx),
        };
        proof {
            assert(self.awaits(trail_entry) == track);
        }
        self.add_to_trail(trail_entry)
    }

    /// Forces literals until no clause is ready: each clause taken off
    /// the ready set that is stored and has one literal left, the others
    /// false, has that literal put on the trail.
    pub(crate) fn unit_propagate(&mut self) -> (r: UnitPropagationResult)
        requires
            old(self).wf(),
        ensures
            final(self).wf(),
            final(self).formula() == old(self).formula(),
            final(self).exhausted == old(self).exhausted,
            final(self).decisions() == old(self).decisions(),
            match r {
                UnitPropagationResult::Contradiction(c) => final(self).conflicting(c) && final(self).raised(c),
                _ => final(self).ready_empty(),
            },
            old(self).settled() ==> match r {
                UnitPropagationResult::Contradiction(c) => final(self).loose(),
                _ => final(self).settled(),
            },
            old(self).paired() ==> final(self).paired(),
            final(self).is_exhausted() == old(self).is_exhausted(),
            old(self).ready_empty() ==> r is NothingToPropagate,
            old(self).trail@.len() <= final(self).trail@.len(),
            final(self).trail@.take(old(self).trail@.len() as int) == old(self).trail@,
            r is NothingToPropagate ==> final(self).trail@ == old(self).trail@,
            r is NothingToPropagate <==> old(self).ready_empty(),
            r is NothingToPropagate ==> final(self).same_search(*old(self)),
            final(self).grew_from(*old(self)) || final(self).trail_kept(*old(self)),
            final(self).level() == old(self).level(),
    {
        let had_ready: bool = !self.ready_for_unit_prop.is_empty();
        let mut progressed: bool = false;
        let ghost track = self.settled();
        loop
            invariant
                old(self).ready_empty() ==> !progressed && self.ready_empty(),
                old(self).ready_empty() ==> self.same_search(*old(self)),
                self.decision_level == old(self).decision_level,
                old(self).trail@.len() <= self.trail@.len(),
                self.trail@.take(old(self).trail@.len() as int) == old(self).trail@,
                progressed <==> self.trail@.len() > old(self).trail@.len(),
                self.wf(),
                self.formula() == old(self).formula(),
                self.exhausted == old(self).exhausted,
                self.decisions() == old(self).decisions(),
                track == old(self).settled(),
                track ==> self.settled(),
                old(self).paired() ==> self.paired(),
            ensures
                self.wf(),
                self.formula() == old(self).formula(),
                self.exhausted == old(self).exhausted,
                self.decisions() == old(self).decisions(),
                track == old(self).settled(),
                track ==> self.settled(),
                old(self).paired() ==> self.paired(),
                self.ready_empty(),
            decreases self.unassigned_variables@.len(), self.ready_for_unit_prop@.len(),
        {
            let ghost at_start = *self;
            proof {
                self.ready_for_unit_prop.lemma_bounded();
                self.unassigned_variables.lemma_bounded();
            }
            let clause_idx: usize = match self.ready_for_unit_prop.pop_first_set() {
                None => {
                    break ;
                },
                Some(i) => i,
            };
            proof {
                self.lemma_wf_after_watch(at_start);
                reveal(store_ok);
                self.lemma_pairs_sound();
                assert(self.ready_for_unit_prop@.insert(clause_idx as nat)
                    =~= at_start.ready_for_unit_prop@);
            }
            if self.clauses[clause_idx].value().is_none() {
                proof {
                    if track {
                        settle::lemma_pop_skip(
                            self.trail@,
                            self.trail_entry_idx_by_var@,
                            self.decision_level,
                            self.sh(),
                            self.pairs@,
                            at_start.ready_for_unit_prop@,
                            clause_idx as int,
                        );
                    }
                }
                continue ;
            }
            proof {
                assert(self.sh()[clause_idx as int] == Some(
                    shape_of(self.clauses@[clause_idx as int].live_value()),
                ));
            }
            match self.try_get_unit_literal(self.clauses[clause_idx].value_exn()) {
                None => {
                    proof {
                        if track {
                            let s = self.sh()[clause_idx as int].unwrap();
                            let t = self.trail@;
                            let p = self.trail_entry_idx_by_var@;
                            if !settle::satisfied(t, p, s) {
                                reveal(settle::settled_all);
                                assert(settle::settled_at(
                                    t,
                                    p,
                                    self.decision_level,
                                    self.sh(),
                                    self.pairs@,
                                    at_start.ready_for_unit_prop@,
                                    clause_idx as int,
                                ));
                                let pair = self.pairs@[clause_idx as int].unwrap();
                                self.lemma_link_unit(clause_idx as int, pair.0);
                                self.lemma_link_unit(clause_idx as int, pair.1);
                                assert(false);
                            }
                            settle::lemma_pop_skip(
                                t,
                                p,
                                self.decision_level,
                                self.sh(),
                                self.pairs@,
                                at_start.ready_for_unit_prop@,
                                clause_idx as int,
                            );
                        }
                    }
                    continue ;
                },
                Some(literal) => {
                    proof {
                        crate::trail::lemma_decisions_push(
                            self.trail@,
                            TrailEntry {
                                literal,
                                decision_level: self.decision_level,
                                reason: Reason::ClauseIdx(clause_idx),
                            },
                        );
                    }
                    let ghost prior = self.trail@;
                    let found = self.with_unit_clause(literal, clause_idx);
                    proof {
                        assert(self.trail@.take(old(self).trail@.len() as int) =~= old(
                            self,
                        ).trail@) by {
                            assert(prior.take(old(self).trail@.len() as int) == old(self).trail@);
                        }
                    }
                    match found {
                        Some(c) => {
                            return UnitPropagationResult::Contradiction(c);
                        },
                        None => {},
                    }
                    progressed = true;
                },
            }
        }
        proof {
            if self.trail@.len() == old(self).trail@.len() {
                assert(self.trail@ =~= self.trail@.take(old(self).trail@.len() as int));
            }
        }
        if had_ready {
            UnitPropagationResult::FinishedUnitPropagation
        } else {
            UnitPropagationResult::NothingToPropagate
        }
    }

    /// Undoes every entry above `level`, newest first.
    pub(crate) fn backjump_to(&mut self, level: usize)
        requires
            old(self).wf(),
        ensures
            final(self).wf(),
            final(self).formula() == old(self).formula(),
            final(self).exhausted == old(self).exhausted,
            final(self).sh() == old(self).sh(),
            final(self).clauses@.len() == old(self).clauses@.len(),
            final(self).decisions().subset_of(old(self).decisions()),
            final(self).decision_level <= level || final(self).decision_level == old(
                self,
            ).decision_level,
            final(self).trail@.len() <= old(self).trail@.len(),
            forall|u: nat| old(self).tracks(u) ==> final(self).tracks(u),
            final(self).all_variables == old(self).all_variables,
            final(self).num_vars() == old(self).num_vars(),
            final(self).trail@ == old(self).trail@.take(final(self).trail@.len() as int),
            forall|i: int|
                0 <= i < final(self).trail@.len() ==> (#[trigger] old(self).trail@[i]).decision_level
                    <= level,
            forall|i: int|
                final(self).trail@.len() <= i < old(self).trail@.len() ==> (#[trigger] old(
                    self,
                ).trail@[i]).decision_level > level,
            final(self).decision_level <= level,
            final(self).decision_level == if level <= old(self).decision_level {
                level
            } else {
                old(self).decision_level
            },
            final(self).pairs == old(self).pairs,
            final(self).ready_for_unit_prop == old(self).ready_for_unit_prop,
            final(self).watched_clauses == old(self).watched_clauses,
            final(self).conflicts == old(self).conflicts,
            final(self).luby == old(self).luby,
            forall|i: int|
                final(self).trail@.len() <= i < old(self).trail@.len()
                    ==> final(self).unassigned_variables@.contains(
                    entry_var(#[trigger] old(self).trail@[i]),
                ),
            forall|i: int|
                final(self).trail@.len() <= i < old(self).trail@.len() ==> final(self).ranks(
                    (#[trigger] old(self).trail@[i]).literal.as_int(),
                ) && final(self).ranks(-old(self).trail@[i].literal.as_int()),
    {
        proof {
            assert(self.trail@ =~= self.trail@.take(self.trail@.len() as int));
        }
        while self.trail.len() > 0 && self.trail[self.trail.len() - 1].decision_level > level
            invariant
                self.wf(),
                self.trail@ == old(self).trail@.take(self.trail@.len() as int),
                forall|i: int|
                    self.trail@.len() <= i < old(self).trail@.len() ==> (#[trigger] old(
                        self,
                    ).trail@[i]).decision_level > level,
                self.pairs == old(self).pairs,
                self.ready_for_unit_prop == old(self).ready_for_unit_prop,
                self.watched_clauses == old(self).watched_clauses,
                self.formula() == old(self).formula(),
                self.exhausted == old(self).exhausted,
                self.sh() == old(self).sh(),
                self.clauses@.len() == old(self).clauses@.len(),
                self.decisions().subset_of(old(self).decisions()),
                self.trail@.len() <= old(self).trail@.len(),
                self.decision_level == old(self).decision_level || self.trail@.len() < old(
                    self,
                ).trail@.len(),
                forall|u: nat| old(self).tracks(u) ==> self.tracks(u),
                self.all_variables == old(self).all_variables,
                self.num_vars() == old(self).num_vars(),
                self.conflicts == old(self).conflicts,
                self.luby == old(self).luby,
                self.trail@ == old(self).trail@.take(self.trail@.len() as int),
                forall|i: int|
                    self.trail@.len() <= i < old(self).trail@.len()
                        ==> self.unassigned_variables@.contains(
                        entry_var(#[trigger] old(self).trail@[i]),
                    ),
            decreases self.trail@.len(),
        {
            proof {
                crate::trail::lemma_decisions_pop(self.trail@);
            }
            let ghost before = self.trail@;
            self.undo_entry();
            proof {
                assert(self.trail@ =~= old(self).trail@.take(self.trail@.len() as int));
                assert(old(self).trail@[self.trail@.len() as int] == before[before.len() - 1]);
            }
        }
        proof {
            reveal(trail_ok);
            let t = self.trail@;
            let t0 = old(self).trail@;
            assert forall|i: int| 0 <= i < t.len() implies (#[trigger] old(self).trail@[i]).decision_level
                <= level by {
                assert(t[i] == old(self).trail@[i]);
                assert(t[i].decision_level <= t[t.len() - 1].decision_level);
            }
            assert forall|i: int| self.trail@.len() <= i < t0.len() implies self.ranks(
                (#[trigger] t0[i]).literal.as_int(),
            ) && self.ranks(-t0[i].literal.as_int()) by {
                let l = t0[i].literal.as_int();
                assert(old(self).trail@[i].literal.as_int() != 0);
                self.lemma_ranks(l);
                self.lemma_ranks(-l);
            }
            if level <= old(self).decision_level {
                if level >= 1 {
                    let i = crate::trail::lemma_level_reached(t0, level as int);
                    assert(i < t.len());
                    assert(t[i] == t0[i]);
                    assert(t[i].decision_level <= t[t.len() - 1].decision_level);
                    assert(t0[t.len() - 1] == t[t.len() - 1]);
                }
            } else {
                if t.len() < t0.len() {
                    assert(t0[t.len() as int].decision_level <= t0[t0.len() - 1].decision_level);
                }
                assert(t =~= t0);
            }
        }
    }

    /// Starts the search over: the ready set and the trail are emptied,
    /// and every stored clause with one literal left is marked ready.
    pub(crate) fn restart(&mut self)
        requires
            old(self).wf(),
        ensures
            final(self).wf(),
            final(self).formula() == old(self).formula(),
            final(self).exhausted == old(self).exhausted,
            final(self).trail@.len() == 0,
            final(self).decision_level == 0,
            final(self).decisions() == Set::<int>::empty(),
            final(self).pairs == old(self).pairs,
            final(self).sh() == old(self).sh(),
            old(self).paired() ==> final(self).settled(),
            final(self).paired() == old(self).paired(),
            final(self).is_exhausted() == old(self).is_exhausted(),
            final(self).conflicts == old(self).conflicts,
            final(self).luby == old(self).luby,
            final(self).refuted() == old(self).refuted(),
            old(self).formula().len() == 0 ==> final(self).ready_empty(),
            forall|k: int|
                final(self).is_ready(k) <==> (#[trigger] final(self).stored(k)) is Some
                    && settle::lone(final(self).stored(k).unwrap()),
    {
        let ghost at_start = *self;
        if self.debug_writer.is_some() {
            trace::log(&mut self.debug_writer, trace::line_restart());
        }
        self.ready_for_unit_prop.clear_all();
        proof {
            self.lemma_wf_after_watch(at_start);
        }
        while self.trail.len() > 0
            invariant
                self.wf(),
                self.formula() == old(self).formula(),
                self.exhausted == old(self).exhausted,
                self.pairs == old(self).pairs,
                self.sh() == old(self).sh(),
                self.clauses@.len() == old(self).clauses@.len(),
                self.ready_for_unit_prop@ == Set::<nat>::empty(),
                self.conflicts == old(self).conflicts,
                self.luby == old(self).luby,
                self.instantly_unsat == old(self).instantly_unsat,
            decreases self.trail@.len(),
        {
            self.undo_entry();
        }
        proof {
            reveal(trail_ok);
            assert(self.decisions() =~= Set::<int>::empty());
        }
        let n: usize = self.clauses.len();
        let mut clause_idx: usize = 0;
        while clause_idx < n
            invariant
                self.wf(),
                self.formula() == old(self).formula(),
                self.exhausted == old(self).exhausted,
                self.trail@.len() == 0,
                self.decision_level == 0,
                self.decisions() == Set::<int>::empty(),
                self.pairs == old(self).pairs,
                self.sh() == old(self).sh(),
                n == self.clauses@.len(),
                clause_idx <= n,
                self.conflicts == old(self).conflicts,
                self.luby == old(self).luby,
                self.instantly_unsat == old(self).instantly_unsat,
                forall|k: int|
                    0 <= k < clause_idx && (#[trigger] self.sh()[k]) is Some ==> (
                    self.ready_for_unit_prop@.contains(k as nat) <==> settle::lone(
                        self.sh()[k].unwrap(),
                    )),
                forall|k: nat| self.ready_for_unit_prop@.contains(k) ==> k < clause_idx,
                forall|k: nat|
                    self.ready_for_unit_prop@.contains(k) ==> (#[trigger] self.sh()[k as int]) is Some,
            decreases n - clause_idx,
        {
            let ghost before = *self;
            proof {
                reveal(store_ok);
                assert(self.sh()[clause_idx as int] is Some == self.clauses@[clause_idx as int].is_live());
            }
            if self.clauses[clause_idx].value().is_some() {
                proof {
                    self.lemma_unit_iff_lone(clause_idx as int);
                    assert(self.sh()[clause_idx as int] == Some(
                        shape_of(self.clauses@[clause_idx as int].live_value()),
                    ));
                }
                if self.try_get_unit_literal(self.clauses[clause_idx].value_exn()).is_some() {
                    if self.debug_writer.is_some() {
                        let text = self.clause_string(clause_idx);
                        trace::log(&mut self.debug_writer, trace::line_unit_after_restart(&text));
                    }
                    self.ready_for_unit_prop.set(clause_idx);
                    proof {
                        self.lemma_wf_after_watch(before);
                    }
                }
            }
            clause_idx = clause_idx + 1;
        }
        proof {
            if self.formula().len() == 0 {
                self.lemma_bare();
                assert forall|k: nat| !self.ready_for_unit_prop@.contains(k) by {
                    if self.ready_for_unit_prop@.contains(k) {
                        assert(self.sh()[k as int] is Some);
                        assert(self.stored(k as int) is None);
                    }
                }
                assert(self.ready_for_unit_prop@ =~= Set::<nat>::empty());
            }
            if old(self).paired() {
                self.lemma_pairs_sound();
                assert forall|k: int|
                    0 <= k < self.sh().len() && self.sh()[k] is Some implies (#[trigger] self.pairs@[k]) is Some by {
                    assert(old(self).sh()[k] is Some);
                }
                settle::lemma_fresh(
                    self.trail@,
                    self.trail_entry_idx_by_var@,
                    self.sh(),
                    self.pairs@,
                    self.ready_for_unit_prop@,
                );
            }
        }
    }

    /// On a trail without entries a stored clause has one literal left
    /// exactly if it has one literal.
    proof fn lemma_unit_iff_lone(&self, k: int)
        requires
            self.wf(),
            self.trail@.len() == 0,
            0 <= k < self.clauses@.len(),
            self.clauses@[k].is_live(),
        ensures
            (exists|l: int| #[trigger]
                unit_under(
                    self.sh()[k].unwrap(),
                    l,
                    self.assignments@,
                    self.unassigned_variables@,
                )) == settle::lone(self.sh()[k].unwrap()),
    {
        let s = self.sh()[k].unwrap();
        reveal(store_ok);
        assert(self.clauses@[k].live_value().wf());
        assert forall|u: nat| s.vars.contains(u) implies self.unassigned_variables@.contains(u) by {
            self.lemma_link(k, u);
        }
        if exists|l: int| #[trigger]
            unit_under(s, l, self.assignments@, self.unassigned_variables@) {
            let l = choose|l: int| #[trigger]
                unit_under(s, l, self.assignments@, self.unassigned_variables@);
            assert(settle::sole(s, lit_var(l)));
        }
        if settle::lone(s) {
            let x = choose|x: nat| #[trigger] settle::sole(s, x);
            let l: int = if s.negs.contains(x) {
                -(x as int)
            } else {
                x as int
            };
            assert(unit_under(s, l, self.assignments@, self.unassigned_variables@));
        }
    }

    /// The invariant is kept where only the activities of the literals
    /// and their increment change, within the cap.
    proof fn lemma_wf_after_scores(&self, before: Engine<B>)
        requires
            before.wf(),
            *self == (Engine {
                literal_by_score: self.literal_by_score,
                score_for_literal: self.score_for_literal,
                vsids_inc: self.vsids_inc,
                ..before
            }),
            self.score_for_literal@.len() == before.score_for_literal@.len(),
            scores_ok(self.score_for_literal@, self.vsids_inc, self.cla_inc),
            ranked_ok(
                self.literal_by_score@,
                self.score_for_literal@,
                self.unassigned_variables@,
            ),
        ensures
            self.wf(),
            self.sh() == before.sh(),
            self.decisions() == before.decisions(),
    {
    }

    /// Adds the increment to the activity of `literal`; where the
    /// activity grows past the cap, every activity and the increment are
    /// scaled down.
    pub(crate) fn add_vsids_activity(&mut self, literal: Literal)
        requires
            old(self).wf(),
            lit_var(literal.as_int()) < old(self).num_vars(),
        ensures
            final(self).wf(),
            *final(self) == (Engine {
                literal_by_score: final(self).literal_by_score,
                score_for_literal: final(self).score_for_literal,
                vsids_inc: final(self).vsids_inc,
                ..*old(self)
            }),
            final(self).vsids_inc == scaled_inc(
                old(self).vsids_inc,
                score_of(old(self).score_for_literal@, literal.as_int()) + old(self).vsids_inc
                    > SCORE_CAP,
            ),
            forall|x: int|
                x != 0 && lit_var(x) < old(self).num_vars() ==> #[trigger] score_of(
                    final(self).score_for_literal@,
                    x,
                ) == scaled(
                    if x == literal.as_int() {
                        score_of(old(self).score_for_literal@, x) + old(self).vsids_inc
                    } else {
                        score_of(old(self).score_for_literal@, x) as int
                    },
                    score_of(old(self).score_for_literal@, literal.as_int()) + old(self).vsids_inc
                        > SCORE_CAP,
                ),
    {
        proof {
            reveal(scores_ok);
        }
        let var: usize = literal.variable();
        let pol: bool = literal.value();
        let ghost s0 = self.score_for_literal@;
        let current: u128 = *self.score_for_literal[var].get(pol);
        let next: u128 = current + self.vsids_inc;
        proof {
            reveal(assign_ok);
        }
        let listed: bool = self.unassigned_variables.contains(var);
        if listed {
            ranked::unrank(&mut self.literal_by_score, &self.score_for_literal, var);
        }
        let ghost taken = self.literal_by_score@;
        let slot = self.score_for_literal[var].get_mut(pol);
        *slot = next;
        let ghost s1 = self.score_for_literal@;
        if next > SCORE_CAP {
            rescale_vsids(&mut self.score_for_literal, &mut self.vsids_inc);
            ranked::rerank(
                &mut self.literal_by_score,
                &self.score_for_literal,
                &self.unassigned_variables,
            );
        } else if listed {
            ranked::rank(&mut self.literal_by_score, &self.score_for_literal, var);
        }
        proof {
            assert forall|v: int| 0 <= v < self.score_for_literal@.len() implies (
            #[trigger] self.score_for_literal@[v]).first <= SCORE_CAP
                && self.score_for_literal@[v].second <= SCORE_CAP by {
                assert(s0[v].first <= SCORE_CAP && s0[v].second <= SCORE_CAP);
            }
            if next <= SCORE_CAP {
                let un = self.unassigned_variables@;
                if listed {
                    ranked::lemma_ranked_without(old(self).literal_by_score@, s0, un, var as nat);
                    ranked::lemma_ranked_same(taken, s0, s1, un.remove(var as nat));
                    ranked::lemma_ranked_with(taken, s1, un.remove(var as nat), var as nat);
                    assert(un.remove(var as nat).insert(var as nat) =~= un);
                } else {
                    ranked::lemma_ranked_same(old(self).literal_by_score@, s0, s1, un);
                }
            }
            self.lemma_wf_after_scores(*old(self));
        }
    }

    /// Lets later activity weigh more: the increment grows by a
    /// nineteenth of itself.
    pub(crate) fn decay_vsids_activities(&mut self)
        requires
            old(self).wf(),
        ensures
            final(self).wf(),
            *final(self) == (Engine {
                literal_by_score: final(self).literal_by_score,
                score_for_literal: final(self).score_for_literal,
                vsids_inc: final(self).vsids_inc,
                ..*old(self)
            }),
            final(self).vsids_inc == scaled_inc(
                old(self).vsids_inc,
                old(self).vsids_inc * 20 / 19 > SCORE_CAP,
            ) * 20 / 19,
            forall|x: int|
                x != 0 && lit_var(x) < old(self).num_vars() ==> #[trigger] score_of(
                    final(self).score_for_literal@,
                    x,
                ) == scaled(
                    score_of(old(self).score_for_literal@, x) as int,
                    old(self).vsids_inc * 20 / 19 > SCORE_CAP,
                ),
    {
        proof {
            reveal(scores_ok);
        }
        let ghost s0 = self.score_for_literal@;
        if self.vsids_inc * 20 / 19 > SCORE_CAP {
            rescale_vsids(&mut self.score_for_literal, &mut self.vsids_inc);
            proof {
                reveal(assign_ok);
            }
            ranked::rerank(
                &mut self.literal_by_score,
                &self.score_for_literal,
                &self.unassigned_variables,
            );
        }
        self.vsids_inc = self.vsids_inc * 20 / 19;
        proof {
            assert forall|v: int| 0 <= v < self.score_for_literal@.len() implies (
            #[trigger] self.score_for_literal@[v]).first <= SCORE_CAP
                && self.score_for_literal@[v].second <= SCORE_CAP by {
                assert(s0[v].first <= SCORE_CAP && s0[v].second <= SCORE_CAP);
            }
            self.lemma_wf_after_scores(*old(self));
        }
    }

    /// The unassigned literal that ranks above every other: the one of
    /// highest activity, and among equals the one with the highest
    /// signed number.
    pub(crate) fn choose_vsids_literal(&self) -> (r: Option<Literal>)
        requires
            self.wf(),
        ensures
            match r {
                Some(l) => l.as_int() != 0 && self.unassigned(lit_var(l.as_int())) && forall|x: int|
                    x != 0 && self.unassigned_variables@.contains(lit_var(x)) ==> ranks_above(
                        self.score_for_literal@,
                        l.as_int(),
                        x,
                    ),
                None => forall|v: nat| !self.unassigned(v),
            },
            self.same_search(*self),
    {
        proof {
            reveal(assign_ok);
        }
        match ranked::greatest(&self.literal_by_score) {
            None => {
                proof {
                    assert forall|v: nat| !self.unassigned(v) by {
                        ranked::lemma_none_ranked(
                            self.literal_by_score@,
                            self.score_for_literal@,
                            self.unassigned_variables@,
                            v,
                        );
                    }
                }
                None
            },
            Some(top) => {
                let number: isize = top.1;
                proof {
                    self.lemma_top_ranked(top);
                }
                let var: usize = if number < 0 {
                    (-number) as usize
                } else {
                    number as usize
                };
                let l = Literal::new(var, number > 0);
                proof {
                    assert(l.as_int() == number);
                    assert forall|x: int|
                        x != 0 && self.unassigned_variables@.contains(lit_var(x)) implies ranks_above(
                        self.score_for_literal@,
                        l.as_int(),
                        x,
                    ) by {
                        ranked::lemma_greatest_ranks(
                            self.literal_by_score@,
                            self.score_for_literal@,
                            self.unassigned_variables@,
                            top,
                            x,
                        );
                    }
                }
                Some(l)
            },
        }
    }

    /// Whether the by-activity set holds the literal `l` with its
    /// activity.
    pub closed spec fn ranks(&self, l: int) -> bool {
        isize::MIN < l <= isize::MAX && self.literal_by_score@.contains(
            (score_of(self.score_for_literal@, l), l as isize),
        )
    }

    /// The by-activity set holds a literal with its activity exactly
    /// where its variable is unassigned.
    pub proof fn lemma_ranks(&self, l: int)
        requires
            self.wf(),
            l != 0,
        ensures
            self.ranks(l) == self.unassigned(lit_var(l)),
    {
        reveal(ranked_ok);
        reveal(assign_ok);
        if isize::MIN < l <= isize::MAX {
            let n: isize = l as isize;
            assert(self.literal_by_score@.contains((score_of(self.score_for_literal@, l), n))
                == self.unassigned(lit_var(l)));
        }
    }

    /// The greatest pair of the by-activity set is a literal of an
    /// unassigned variable.
    proof fn lemma_top_ranked(&self, top: (u128, isize))
        requires
            self.wf(),
            self.literal_by_score@.contains(top),
        ensures
            top.1 != 0,
            top.1 > isize::MIN,
            self.unassigned_variables@.contains(lit_var(top.1 as int)),
            lit_var(top.1 as int) <= isize::MAX,
    {
        reveal(ranked_ok);
        reveal(assign_ok);
        assert(self.literal_by_score@.contains((top.0, top.1)));
    }

    /// A literal of an unassigned variable, both drawn at random.
    pub(crate) fn choose_random_literal(&mut self) -> (r: Option<Literal>)
        requires
            old(self).wf(),
        ensures
            final(self).wf(),
            final(self).formula() == old(self).formula(),
            final(self).is_exhausted() == old(self).is_exhausted(),
            final(self).settled() == old(self).settled(),
            final(self).ready_empty() == old(self).ready_empty(),
            final(self).paired() == old(self).paired(),
            final(self).same_search(*old(self)),
            *final(self) == (Engine { rng: final(self).rng, ..*old(self) }),
            match r {
                Some(l) => l.as_int() != 0 && final(self).unassigned(lit_var(l.as_int())),
                None => forall|v: nat| !final(self).unassigned(v),
            },
    {
        proof {
            reveal(assign_ok);
            self.unassigned_variables.lemma_bounded();
        }
        let len: usize = self.unassigned_variables.count();
        if len == 0 {
            proof {
                assert(self.unassigned_variables@.len() == 0);
                assert(self.unassigned_variables@ =~= Set::<nat>::empty());
            }
            None
        } else {
            let num: usize = crate::random::random_index(&mut self.rng, len);
            match self.unassigned_variables.nth(num) {
                None => None,
                Some(var) => {
                    let value: bool = crate::random::random_ratio(&mut self.rng, 1, 2);
                    Some(Literal::new(var, value))
                },
            }
        }
    }

    /// The level at which `var` was assigned, if it is on the trail.
    pub(crate) fn level_of_var(&self, var: usize) -> (r: Option<usize>)
        requires
            self.wf(),
        ensures
            r == level_of(self.trail@, self.trail_entry_idx_by_var@, var as nat),
    {
        proof {
            reveal(trail_ok);
        }
        if var >= self.trail_entry_idx_by_var.len() {
            return None;
        }
        match self.trail_entry_idx_by_var[var] {
            None => None,
            Some(idx) => Some(self.trail[idx].decision_level),
        }
    }

    /// The number of literals of the clause that were assigned at the
    /// current level.
    pub(crate) fn count_at_level(&self, clause: &Clause<B>) -> (r: usize)
        requires
            self.wf(),
            clause.wf(),
        ensures
            r == vars_at_level(
                clause.variables@,
                self.trail@,
                self.trail_entry_idx_by_var@,
                self.decision_level,
            ).len(),
    {
        let ghost t = vars_at_level(
            clause.variables@,
            self.trail@,
            self.trail_entry_idx_by_var@,
            self.decision_level,
        );
        let mut acc: usize = 0;
        let mut cursor: usize = 0;
        proof {
            clause.variables.lemma_bounded();
            vstd::set_lib::lemma_len_subset(t, clause.variables@);
            assert(within(t, 0, 0) =~= Set::<nat>::empty());
        }
        loop
            invariant
                self.wf(),
                clause.wf(),
                t == vars_at_level(
                    clause.variables@,
                    self.trail@,
                    self.trail_entry_idx_by_var@,
                    self.decision_level,
                ),
                t.finite(),
                acc == within(t, 0, cursor as nat).len(),
                acc <= cursor <= clause.variables.cap(),
            decreases clause.variables.cap() - cursor,
        {
            match clause.variables.first_set_ge(cursor) {
                None => {
                    proof {
                        lemma_count_done(t, cursor as nat);
                    }
                    return acc;
                },
                Some(v) => {
                    proof {
                        clause.variables.lemma_bounded();
                        lemma_count_step(t, cursor as nat, v as nat);
                    }
                    if self.level_of_var(v) == Some(self.decision_level) {
                        acc = acc + 1;
                    }
                    cursor = v + 1;
                },
            }
        }
    }

    /// Whether exactly one literal of the clause was assigned at the
    /// current level.
    pub(crate) fn only_one_at_level(&self, clause: &Clause<B>) -> (r: bool)
        requires
            self.wf(),
            clause.wf(),
        ensures
            r == (vars_at_level(
                clause.variables@,
                self.trail@,
                self.trail_entry_idx_by_var@,
                self.decision_level,
            ).len() == 1),
    {
        self.count_at_level(clause) == 1
    }

    /// The highest level at which a literal of the clause was assigned,
    /// or zero where none was.
    pub(crate) fn highest_decision_level(&self, clause: &Clause<B>) -> (r: usize)
        requires
            self.wf(),
            clause.wf(),
        ensures
            highest(clause.variables@, self.trail@, self.trail_entry_idx_by_var@, r),
    {
        let mut top: usize = 0;
        let mut cursor: usize = 0;
        let ghost t = self.trail@;
        let ghost p = self.trail_entry_idx_by_var@;
        let ghost vars = clause.variables@;
        proof {
            clause.variables.lemma_bounded();
        }
        loop
            invariant
                self.wf(),
                clause.wf(),
                t == self.trail@,
                p == self.trail_entry_idx_by_var@,
                vars == clause.variables@,
                cursor <= clause.variables.cap(),
                top == 0 || exists|u: nat| #[trigger]
                    vars.contains(u) && level_of(t, p, u) == Some(top),
                forall|u: nat| #[trigger]
                    vars.contains(u) && u < cursor && level_of(t, p, u) is Some ==> level_of(
                        t,
                        p,
                        u,
                    ).unwrap() <= top,
            decreases clause.variables.cap() - cursor,
        {
            match clause.variables.first_set_ge(cursor) {
                None => {
                    return top;
                },
                Some(v) => {
                    proof {
                        clause.variables.lemma_bounded();
                        assert(vars.contains(v as nat));
                    }
                    match self.level_of_var(v) {
                        None => {},
                        Some(level) => {
                            if level > top {
                                top = level;
                            }
                        },
                    }
                    cursor = v + 1;
                },
            }
        }
    }

    /// The second highest of the distinct levels at which literals of
    /// the clause were assigned, or zero where there is none.
    pub(crate) fn second_highest_decision_level(&self, clause: &Clause<B>) -> (r: usize)
        requires
            self.wf(),
            clause.wf(),
        ensures
            second_highest(clause.variables@, self.trail@, self.trail_entry_idx_by_var@, r),
    {
        let mut max1: usize = 0;
        let mut max2: usize = 0;
        let mut cursor: usize = 0;
        let ghost t = self.trail@;
        let ghost p = self.trail_entry_idx_by_var@;
        let ghost vars = clause.variables@;
        proof {
            clause.variables.lemma_bounded();
        }
        loop
            invariant
                self.wf(),
                clause.wf(),
                t == self.trail@,
                p == self.trail_entry_idx_by_var@,
                vars == clause.variables@,
                cursor <= clause.variables.cap(),
                max1 == 0 || exists|u: nat| #[trigger]
                    vars.contains(u) && level_of(t, p, u) == Some(max1),
                max2 == 0 || exists|u: nat| #[trigger]
                    vars.contains(u) && level_of(t, p, u) == Some(max2),
                max2 < max1 || (max2 == 0 && max1 == 0),
                forall|u: nat| #[trigger]
                    vars.contains(u) && u < cursor && level_of(t, p, u) is Some ==> level_of(
                        t,
                        p,
                        u,
                    ).unwrap() <= max1,
                forall|u: nat| #[trigger]
                    vars.contains(u) && u < cursor && level_of(t, p, u) is Some && level_of(
                        t,
                        p,
                        u,
                    ).unwrap() < max1 ==> level_of(t, p, u).unwrap() <= max2,
            decreases clause.variables.cap() - cursor,
        {
            match clause.variables.first_set_ge(cursor) {
                None => {
                    proof {
                        assert(highest(vars, t, p, max1));
                        assert(next_below(vars, t, p, max1, max2));
                    }
                    return max2;
                },
                Some(v) => {
                    proof {
                        clause.variables.lemma_bounded();
                        assert(vars.contains(v as nat));
                    }
                    match self.level_of_var(v) {
                        None => {},
                        Some(level) => {
                            if level > max1 {
                                max2 = max1;
                                max1 = level;
                            } else if level > max2 && level < max1 {
                                max2 = level;
                            }
                        },
                    }
                    cursor = v + 1;
                },
            }
        }
    }

    /// The invariant is kept where stored clauses change in their
    /// activity alone, within the cap, and the clause increment changes
    /// within its bounds.
    proof fn lemma_wf_after_touch(&self, before: Engine<B>)
        requires
            before.wf(),
            *self == (Engine { clauses: self.clauses, cla_inc: self.cla_inc, ..before }),
            1 <= self.cla_inc <= SCORE_CAP,
            self.clauses@.len() == before.clauses@.len(),
            forall|k: int|
                0 <= k < before.clauses@.len() ==> (#[trigger] self.clauses@[k]) == if before.clauses@[k].is_live() {
                    TombStone::T(
                        before.clauses@[k].gen(),
                        Clause {
                            score: self.clauses@[k].live_value().score,
                            ..before.clauses@[k].live_value()
                        },
                    )
                } else {
                    before.clauses@[k]
                },
            forall|k: int|
                0 <= k < before.clauses@.len() && before.clauses@[k].is_live() ==> (
                #[trigger] self.clauses@[k]).live_value().score <= SCORE_CAP,
        ensures
            self.wf(),
            self.sh() == before.sh(),
            self.decisions() == before.decisions(),
    {
        assert(self.sh() =~= before.sh()) by {
            assert forall|k: int| 0 <= k < before.sh().len() implies self.sh()[k] == before.sh()[k] by {
                assert(self.clauses@[k].is_live() == before.clauses@[k].is_live());
            }
        }
        self.lemma_same_gens(before);
        assert(units_ok(self.trail@, self.clauses@)) by {
            reveal(units_ok);
            assert forall|i: int|
                0 <= i < self.trail@.len() && (#[trigger] self.trail@[i]).reason is ClauseIdx implies {
                let k = self.trail@[i].reason->ClauseIdx_0;
                k < self.clauses@.len() && self.clauses@[k as int].is_live()
                    && self.clauses@[k as int].live_value().num_units >= 1
            } by {
                let k = self.trail@[i].reason->ClauseIdx_0;
                assert(before.clauses@[k as int].is_live());
                assert(self.clauses@[k as int].is_live());
            }
        }
        assert(store_ok(self.clauses@)) by {
            reveal(store_ok);
            assert forall|k: int|
                0 <= k < self.clauses@.len() && (#[trigger] self.clauses@[k]).is_live() implies self.clauses@[k].live_value().wf()
                && self.clauses@[k].live_value().score <= SCORE_CAP by {
                assert(before.clauses@[k].is_live());
            }
        }
        assert(free_ok(self.clauses@, self.free@, self.clauses_first_tombstone)) by {
            reveal(free_ok);
            assert forall|j: int| 0 <= j < self.free@.len() implies (#[trigger] self.free@[j])
                < self.clauses@.len() && !self.clauses@[self.free@[j] as int].is_live()
                && self.clauses@[self.free@[j] as int].gen() < usize::MAX
                && self.clauses@[self.free@[j] as int].next_free() == if j + 1 < self.free@.len() {
                Some(self.free@[j + 1])
            } else {
                None
            } by {
                assert(!before.clauses@[self.free@[j] as int].is_live());
            }
        }
        assert(scores_ok(self.score_for_literal@, self.vsids_inc, self.cla_inc)) by {
            reveal(scores_ok);
        }
    }

    /// Adds the clause increment to the activity of the clause in slot
    /// `clause_idx`; where the activity grows past the cap, the activity
    /// of every clause and the increment are scaled down.
    pub(crate) fn add_clause_activity_and_maybe_rescale(&mut self, clause_idx: usize)
        requires
            old(self).wf(),
            clause_idx < old(self).clauses@.len(),
            old(self).clauses@[clause_idx as int].is_live(),
        ensures
            final(self).wf(),
            final(self).sh() == old(self).sh(),
            final(self).clauses@.len() == old(self).clauses@.len(),
            *final(self) == (Engine {
                clauses: final(self).clauses,
                cla_inc: final(self).cla_inc,
                ..*old(self)
            }),
            final(self).cla_inc == scaled_inc(
                old(self).cla_inc,
                old(self).clauses@[clause_idx as int].live_value().score + old(self).cla_inc
                    > SCORE_CAP,
            ),
            forall|k: int|
                0 <= k < old(self).clauses@.len() && old(self).clauses@[k].is_live() ==> (
                #[trigger] final(self).clauses@[k]).is_live()
                    && final(self).clauses@[k].live_value().score == scaled(
                    if k == clause_idx {
                        old(self).clauses@[k].live_value().score + old(self).cla_inc
                    } else {
                        old(self).clauses@[k].live_value().score as int
                    },
                    old(self).clauses@[clause_idx as int].live_value().score + old(self).cla_inc
                        > SCORE_CAP,
                ),
    {
        proof {
            reveal(store_ok);
            reveal(scores_ok);
        }
        let c = self.clauses[clause_idx].value_mut_exn();
        c.score = c.score + self.cla_inc;
        let grown: bool = c.score > SCORE_CAP;
        if grown {
            rescale_clause_activities(&mut self.clauses, &mut self.cla_inc);
        }
        proof {
            assert forall|k: int|
                0 <= k < old(self).clauses@.len() && old(self).clauses@[k].is_live() implies (
            #[trigger] self.clauses@[k]).live_value().score <= SCORE_CAP by {
                assert(old(self).clauses@[k].live_value().score <= SCORE_CAP);
            }
            self.lemma_wf_after_touch(*old(self));
        }
    }

    /// Lets later clause activity weigh more: the increment grows by a
    /// third of itself.
    pub(crate) fn decay_clause_activities(&mut self)
        requires
            old(self).wf(),
        ensures
            final(self).wf(),
            final(self).sh() == old(self).sh(),
            *final(self) == (Engine {
                clauses: final(self).clauses,
                cla_inc: final(self).cla_inc,
                ..*old(self)
            }),
            final(self).cla_inc == scaled_inc(
                old(self).cla_inc,
                old(self).cla_inc * 4 / 3 > SCORE_CAP,
            ) * 4 / 3,
            final(self).clauses@.len() == old(self).clauses@.len(),
            forall|k: int|
                0 <= k < old(self).clauses@.len() && old(self).clauses@[k].is_live() ==> (
                #[trigger] final(self).clauses@[k]).is_live()
                    && final(self).clauses@[k].live_value().score == scaled(
                    old(self).clauses@[k].live_value().score as int,
                    old(self).cla_inc * 4 / 3 > SCORE_CAP,
                ),
            forall|k: int|
                0 <= k < old(self).clauses@.len() ==> (#[trigger] final(self).clauses@[k])
                    == rescored(old(self).clauses@[k], final(self).clauses@[k]),
    {
        proof {
            reveal(store_ok);
            reveal(scores_ok);
        }
        if self.cla_inc * 4 / 3 > SCORE_CAP {
            rescale_clause_activities(&mut self.clauses, &mut self.cla_inc);
        }
        self.cla_inc = self.cla_inc * 4 / 3;
        proof {
            assert forall|k: int|
                0 <= k < old(self).clauses@.len() && old(self).clauses@[k].is_live() implies (
            #[trigger] self.clauses@[k]).live_value().score <= SCORE_CAP by {
                assert(old(self).clauses@[k].live_value().score <= SCORE_CAP);
            }
            self.lemma_wf_after_touch(*old(self));
        }
    }

    /// Derives a clause from the conflict in slot `failed_clause_idx`:
    /// starting from a copy of the conflicting clause, the trail is
    /// walked from its newest entry, and each forced entry whose variable
    /// the clause holds is resolved away with the clause that forced it,
    /// until the clause holds one literal of the current level or a
    /// decision is reached. The literals and clauses that took part gain
    /// activity.
    #[verifier::rlimit(60)]
    #[verifier::spinoff_prover]
    pub(crate) fn learn_clause_from_failure(&mut self, failed_clause_idx: usize) -> (r: Clause<B>)
        requires
            old(self).wf(),
            old(self).conflicting(failed_clause_idx),
        ensures
            final(self).wf(),
            final(self).formula() == old(self).formula(),
            final(self).sh() == old(self).sh(),
            final(self).learnable(r),
            r.from_conflict,
            r.num_units == 0,
            falsified(final(self).trail@, final(self).trail_entry_idx_by_var@, shape_of(r)),
            old(self).raised(failed_clause_idx) ==> final(self).asserting(r),
            *final(self) == (Engine {
                clauses: final(self).clauses,
                cla_inc: final(self).cla_inc,
                literal_by_score: final(self).literal_by_score,
                score_for_literal: final(self).score_for_literal,
                vsids_inc: final(self).vsids_inc,
                bitset_pool: final(self).bitset_pool,
                ..*old(self)
            }),
    {
        proof {
            reveal(store_ok);
        }
        let ghost track = self.raised(failed_clause_idx);
        let mut learned = self.clauses[failed_clause_idx].value_exn().copy(&mut self.bitset_pool);
        learned.from_conflict = true;
        learned.num_units = 0;
        proof {
            assert(self.sh()[failed_clause_idx as int] == Some(
                shape_of(self.clauses@[failed_clause_idx as int].live_value()),
            ));
            assert(shape_of(learned).vars == self.sh()[failed_clause_idx as int].unwrap().vars);
            assert(shape_of(learned).negs == self.sh()[failed_clause_idx as int].unwrap().negs);
            assert forall|m: Set<nat>| formula_holds(m, self.formula@) implies #[trigger] shape_holds(
                shape_of(learned),
                m,
            ) by {
                reveal(db_follows);
                assert(shape_holds(self.sh()[failed_clause_idx as int].unwrap(), m));
            }
        }
        let mut num_at_level: usize = self.count_at_level(&learned);
        let mut i: usize = self.trail.len();
        proof {
            reveal(trail_ok);
        }
        while i > 0
            invariant_except_break
                track ==> tops_before(
                    learned.variables@,
                    self.trail@,
                    self.trail_entry_idx_by_var@,
                    self.decision_level,
                    i as int,
                ) && has_top(
                    learned.variables@,
                    self.trail@,
                    self.trail_entry_idx_by_var@,
                    self.decision_level,
                ),
            invariant
                self.wf(),
                i <= self.trail@.len(),
                self.sh() == old(self).sh(),
                num_at_level == vars_at_level(
                    learned.variables@,
                    self.trail@,
                    self.trail_entry_idx_by_var@,
                    self.decision_level,
                ).len(),
                learned.wf(),
                learned.from_conflict,
                learned.num_units == 0,
                learned.score <= SCORE_CAP,
                falsified(self.trail@, self.trail_entry_idx_by_var@, shape_of(learned)),
                forall|m: Set<nat>|
                    formula_holds(m, self.formula@) ==> #[trigger] shape_holds(
                        shape_of(learned),
                        m,
                    ),
                *self == (Engine {
                    clauses: self.clauses,
                    cla_inc: self.cla_inc,
                    literal_by_score: self.literal_by_score,
                    score_for_literal: self.score_for_literal,
                    vsids_inc: self.vsids_inc,
                    bitset_pool: self.bitset_pool,
                    ..*old(self)
                }),
            ensures
                track ==> vars_at_level(
                    learned.variables@,
                    self.trail@,
                    self.trail_entry_idx_by_var@,
                    self.decision_level,
                ).len() == 1,
            decreases i,
        {
            if num_at_level == 1 {
                break ;
            }
            i = i - 1;
            let entry = self.trail[i];
            proof {
                reveal(trail_ok);
            }
            let var: usize = entry.literal.variable();
            if !learned.variables.contains(var) {
                proof {
                    if track {
                        crate::analysis::lemma_passed(
                            learned.variables@,
                            self.trail@,
                            self.trail_entry_idx_by_var@,
                            self.decision_level,
                            i as int,
                        );
                    }
                }
                continue ;
            }
            match entry.reason {
                Reason::Decision(_) => {
                    proof {
                        if track {
                            crate::analysis::lemma_decision_alone(
                                learned.variables@,
                                self.trail@,
                                self.trail_entry_idx_by_var@,
                                self.decision_level,
                                i as int,
                            );
                        }
                    }
                    break ;
                },
                Reason::ClauseIdx(clause_idx) => {
                    proof {
                        reveal(units_ok);
                    }
                    self.add_vsids_activity(entry.literal);
                    self.add_clause_activity_and_maybe_rescale(clause_idx);
                    proof {
                        reveal(store_ok);
                        let k = clause_idx as int;
                        assert(self.sh()[k] == Some(shape_of(self.clauses@[k].live_value())));
                        lemma_resolve_step(
                            self.formula@,
                            self.sh(),
                            self.trail@,
                            self.trail_entry_idx_by_var@,
                            self.decision_level,
                            shape_of(learned),
                            i as int,
                        );
                    }
                    let ghost before = shape_of(learned);
                    proof {
                        if track {
                            reveal(reasons_ok);
                            learned.variables.lemma_bounded();
                            let two = crate::analysis::lemma_two_tops(
                                learned.variables@,
                                self.trail@,
                                self.trail_entry_idx_by_var@,
                                self.decision_level,
                            );
                            assert(crate::trail::reason_ok(
                                self.trail@,
                                self.trail_entry_idx_by_var@,
                                self.sh(),
                                i as int,
                            ));
                            crate::analysis::lemma_resolved(
                                before,
                                self.sh()[clause_idx as int].unwrap(),
                                self.trail@,
                                self.trail_entry_idx_by_var@,
                                self.decision_level,
                                i as int,
                                two,
                            );
                        }
                    }
                    learned.resolve_exn(self.clauses[clause_idx].value_exn(), var);
                    proof {
                        let want = resolvent(
                            before,
                            self.sh()[clause_idx as int].unwrap(),
                            var as nat,
                        );
                        assert(shape_of(learned).vars =~= want.vars);
                        assert(shape_of(learned).negs =~= want.negs);
                        assert(shape_of(learned) == want);
                    }
                    num_at_level = self.count_at_level(&learned);
                },
            }
        }
        proof {
            reveal(trail_ok);
            reveal(assign_ok);
            assert forall|u: nat| #[trigger] learned.variables@.contains(u) implies u
                < self.trail_entry_idx_by_var@.len() && self.all_variables@.contains(u)
                && self.tracks(u) by {
                assert(shape_of(learned).vars.contains(u));
                assert(false_at(
                    self.trail@,
                    self.trail_entry_idx_by_var@,
                    shape_of(learned).negs,
                    u,
                    self.trail@.len() as int,
                ));
                let q = self.trail_entry_idx_by_var@[u as int].unwrap() as int;
                assert(entry_var(self.trail@[q]) == u);
            }
        }
        learned
    }

    /// Whether `v`, if it is one, is an assigned variable of the clause in
    /// slot `clause_idx`.
    pub closed spec fn assigned_in(&self, clause_idx: usize, v: Option<usize>) -> bool {
        v is Some ==> self.clauses@[clause_idx as int].live_value().variables@.contains(
            v.unwrap() as nat,
        ) && !self.unassigned_variables@.contains(v.unwrap() as nat) && v.unwrap()
            < self.trail_entry_idx_by_var@.len()
    }

    /// Of the assigned variables of the clause in slot `clause_idx`: the
    /// first two by ascending variable, and the one assigned at the
    /// highest level, the first such among equals.
    pub(crate) fn assigned_candidates(&self, clause_idx: usize) -> (r: (
        Option<usize>,
        Option<usize>,
        Option<usize>,
    ))
        requires
            self.wf(),
            clause_idx < self.clauses@.len(),
            self.clauses@[clause_idx as int].is_live(),
        ensures
            self.assigned_in(clause_idx, r.0),
            self.assigned_in(clause_idx, r.1),
            self.assigned_in(clause_idx, r.2),
            r.0 is None ==> r.1 is None && r.2 is None,
            r.0 is Some ==> r.2 is Some,
            r.1 is Some ==> r.0 is Some && r.0 != r.1,
            r.0 is None ==> forall|u: nat|
                self.clauses@[clause_idx as int].live_value().variables@.contains(u)
                    ==> self.unassigned_variables@.contains(u),
            r.1 is None ==> forall|u: nat|
                self.clauses@[clause_idx as int].live_value().variables@.contains(u)
                    && !self.unassigned_variables@.contains(u) ==> r.0 == Some(u as usize),
            r.2 is Some ==> forall|u: nat|
                self.clauses@[clause_idx as int].live_value().variables@.contains(u)
                    && !self.unassigned_variables@.contains(u) ==> self.level_or_zero(u)
                    <= self.level_or_zero(r.2.unwrap() as nat),
    {
        proof {
            reveal(store_ok);
            reveal(covered);
        }
        let clause = self.clauses[clause_idx].value_exn();
        let mut first: Option<usize> = None;
        let mut second: Option<usize> = None;
        let mut top: Option<usize> = None;
        let mut top_level: usize = 0;
        let mut cursor: usize = 0;
        proof {
            clause.variables.lemma_bounded();
            assert(self.sh()[clause_idx as int] == Some(shape_of(*clause)));
        }
        loop
            invariant
                self.wf(),
                clause_idx < self.clauses@.len(),
                self.clauses@[clause_idx as int].is_live(),
                *clause == self.clauses@[clause_idx as int].live_value(),
                clause.wf(),
                cursor <= clause.variables.cap(),
                self.assigned_in(clause_idx, first),
                self.assigned_in(clause_idx, second),
                self.assigned_in(clause_idx, top),
                first is None ==> second is None && top is None,
                first is Some ==> top is Some,
                second is Some ==> first is Some && first != second,
                first is Some ==> first.unwrap() < cursor,
                top is Some ==> top_level == self.level_or_zero(top.unwrap() as nat),
                first is None ==> forall|u: nat|
                    u < cursor && clause.variables@.contains(u)
                        ==> self.unassigned_variables@.contains(u),
                second is None ==> forall|u: nat|
                    u < cursor && clause.variables@.contains(u)
                        && !self.unassigned_variables@.contains(u) ==> first == Some(u as usize),
                top is Some ==> forall|u: nat|
                    u < cursor && clause.variables@.contains(u)
                        && !self.unassigned_variables@.contains(u) ==> self.level_or_zero(u)
                        <= top_level,
            decreases clause.variables.cap() - cursor,
        {
            match clause.variables.first_set_ge(cursor) {
                None => {
                    return (first, second, top);
                },
                Some(v) => {
                    proof {
                        reveal(covered);
                        clause.variables.lemma_bounded();
                        assert(self.sh()[clause_idx as int] == Some(shape_of(*clause)));
                        assert(self.sh()[clause_idx as int].unwrap().vars.contains(v as nat));
                    }
                    if !self.unassigned_variables.contains(v) {
                        if first.is_none() {
                            first = Some(v);
                        } else if second.is_none() {
                            second = Some(v);
                        }
                        let level: usize = match self.level_of_var(v) {
                            Some(l) => l,
                            None => 0,
                        };
                        if top.is_none() || level > top_level {
                            top = Some(v);
                            top_level = level;
                        }
                    }
                    cursor = v + 1;
                },
            }
        }
    }

    /// The level at which the variable `u` was assigned, or zero where it
    /// is not on the trail.
    pub closed spec fn level_or_zero(&self, u: nat) -> usize {
        match level_of(self.trail@, self.trail_entry_idx_by_var@, u) {
            Some(l) => l,
            None => 0,
        }
    }

    /// The literal of the variable `var` in the clause of slot
    /// `clause_idx`.
    pub(crate) fn literal_in(&self, clause_idx: usize, var: usize) -> (r: Literal)
        requires
            clause_idx < self.clauses@.len(),
            self.clauses@[clause_idx as int].is_live(),
            var <= isize::MAX,
        ensures
            r.as_int() == if self.clauses@[clause_idx as int].live_value().negatives@.contains(
                var as nat,
            ) {
                -(var as int)
            } else {
                var as int
            },
    {
        Literal::new(var, !self.clauses[clause_idx].value_exn().negatives.contains(var))
    }

    /// Makes the two literals the watchers of the clause in slot
    /// `clause_idx`, which nothing watches yet.
    pub(crate) fn watch_pair(&mut self, a: Literal, b: Literal, clause_idx: usize)
        requires
            old(self).wf(),
            clause_idx < old(self).clauses@.len(),
            old(self).clauses@[clause_idx as int].is_live(),
            old(self).pair_of(clause_idx as int) is None,
            a.as_int() != 0,
            b.as_int() != 0,
            lit_var(a.as_int()) < old(self).num_vars(),
            lit_var(b.as_int()) < old(self).num_vars(),
            old(self).clauses@[clause_idx as int].live_value().has_lit(a.as_int()),
            old(self).clauses@[clause_idx as int].live_value().has_lit(b.as_int()),
            a.as_int() == b.as_int() ==> forall|u: nat|
                old(self).clauses@[clause_idx as int].live_value().variables@.contains(u) ==> u
                    == lit_var(a.as_int()),
        ensures
            final(self).wf(),
            final(self).sh() == old(self).sh(),
            final(self).decisions() == old(self).decisions(),
            final(self).pairs@ == old(self).pairs@.update(
                clause_idx as int,
                Some((a.as_int(), b.as_int())),
            ),
            *final(self) == (Engine {
                watched_clauses: final(self).watched_clauses,
                pairs: final(self).pairs,
                ..*old(self)
            }),
    {
        proof {
            reveal(pairs_ok);
            assert(self.sh()[clause_idx as int] == Some(
                shape_of(self.clauses@[clause_idx as int].live_value()),
            ));
        }
        let generation: usize = *self.clauses[clause_idx].generation();
        let ghost len = self.clauses@.len();
        let ghost w0 = self.watched_clauses@;
        watch_insert(
            &mut self.watched_clauses,
            a.variable(),
            a.value(),
            clause_idx,
            generation,
            Ghost(len),
        );
        let ghost w1 = self.watched_clauses@;
        if a.to_isize() != b.to_isize() {
            watch_insert(
                &mut self.watched_clauses,
                b.variable(),
                b.value(),
                clause_idx,
                generation,
                Ghost(len),
            );
        }
        proof {
            let w = self.watched_clauses@;
            let x = a.as_int();
            let y = b.as_int();
            assert forall|v: int| 0 <= v < w0.len() implies (#[trigger] w[v]).first@ == (if x == v
                || y == v {
                w0[v].first@.insert(clause_idx, generation)
            } else {
                w0[v].first@
            }) && w[v].second@ == (if x == -v || y == -v {
                w0[v].second@.insert(clause_idx, generation)
            } else {
                w0[v].second@
            }) by {
                let va = lit_var(x) as int;
                let vb = lit_var(y) as int;
                assert(watchers(w1, va, x > 0) == w1[va].pick(x > 0)@);
                assert(watchers(w1, va, !(x > 0)) == w1[va].pick(!(x > 0))@);
                assert(watchers(w0, va, x > 0) == w0[va].pick(x > 0)@);
                assert(watchers(w0, va, !(x > 0)) == w0[va].pick(!(x > 0))@);
                if v != va {
                    assert(w1[v] == w0[v]);
                }
                if x != y {
                    assert(watchers(w, vb, y > 0) == w[vb].pick(y > 0)@);
                    assert(watchers(w, vb, !(y > 0)) == w[vb].pick(!(y > 0))@);
                    assert(watchers(w1, vb, y > 0) == w1[vb].pick(y > 0)@);
                    assert(watchers(w1, vb, !(y > 0)) == w1[vb].pick(!(y > 0))@);
                    if v != vb {
                        assert(w[v] == w1[v]);
                    }
                    assert(w[v].first@ =~= (if x == v || y == v {
                        w0[v].first@.insert(clause_idx, generation)
                    } else {
                        w0[v].first@
                    }));
                    assert(w[v].second@ =~= (if x == -v || y == -v {
                        w0[v].second@.insert(clause_idx, generation)
                    } else {
                        w0[v].second@
                    }));
                }
            }
            self.pairs = Ghost(self.pairs@.update(clause_idx as int, Some((x, y))));
            self.lemma_pairs_after_install(*old(self), x, y, clause_idx);
            self.lemma_wf_after_watch(*old(self));
        }
    }

    /// Picks the literals that watch the clause newly stored in slot
    /// `clause_idx`: two unassigned ones where there are two; the one
    /// unassigned literal and the assigned literal of the highest level
    /// where there is one of each, marking the clause ready; the only
    /// literal of a clause with one, marking it ready; and assigned
    /// literals where none is unassigned. A clause without literals
    /// marks the formula as having no model.
    #[verifier::rlimit(60)]
    #[verifier::spinoff_prover]
    pub(crate) fn update_watch_literals_for_new_clause(&mut self, clause_idx: usize)
        requires
            old(self).wf(),
            clause_idx < old(self).clauses@.len(),
            old(self).clauses@[clause_idx as int].is_live(),
            old(self).pair_of(clause_idx as int) is None,
        ensures
            final(self).wf(),
            final(self).sh() == old(self).sh(),
            final(self).decisions() == old(self).decisions(),
            old(self).newly_fit(clause_idx) ==> final(self).settled(),
            old(self).paired_but(clause_idx as int) && old(self).has_variable(clause_idx as int)
                ==> final(self).paired(),
            old(self).one_open(clause_idx as int) ==> final(self).is_ready(clause_idx as int),
            final(self).ready_for_unit_prop@ == if old(self).one_open(clause_idx as int) {
                old(self).ready_for_unit_prop@.insert(clause_idx as nat)
            } else {
                old(self).ready_for_unit_prop@
            },
            forall|k: int| k != clause_idx ==> final(self).pair_of(k) == old(self).pair_of(k),
            match final(self).pair_of(clause_idx as int) {
                Some(p) => old(self).picked(clause_idx as int, p),
                None => !old(self).has_variable(clause_idx as int),
            },
            old(self).refuted() ==> final(self).refuted(),
            !old(self).has_variable(clause_idx as int) ==> final(self).refuted(),
            trace::grown(old(self).trace(), final(self).trace()),
            *final(self) == (Engine {
                watched_clauses: final(self).watched_clauses,
                ready_for_unit_prop: final(self).ready_for_unit_prop,
                debug_writer: final(self).debug_writer,
                instantly_unsat: final(self).instantly_unsat,
                pairs: final(self).pairs,
                ..*old(self)
            }),
    {
        let ghost track = self.newly_fit(clause_idx);
        let ghost open = self.the_open(clause_idx as int);
        proof {
            reveal(store_ok);
            reveal(covered);
            assert(self.sh()[clause_idx as int] == Some(
                shape_of(self.clauses@[clause_idx as int].live_value()),
            ));
        }
        let un0 = self.unassigned_variables.intersect_first_set(
            &self.clauses[clause_idx].value_exn().variables,
        );
        let un1 = match un0 {
            None => None,
            Some(v) => self.unassigned_variables.intersect_first_set_ge(
                &self.clauses[clause_idx].value_exn().variables,
                v + 1,
            ),
        };
        let (as0, as1, top) = self.assigned_candidates(clause_idx);
        proof {
            if un0 is Some {
                assert(self.sh()[clause_idx as int].unwrap().vars.contains(un0.unwrap() as nat));
            }
            if un1 is Some {
                assert(self.sh()[clause_idx as int].unwrap().vars.contains(un1.unwrap() as nat));
            }
            if self.one_open(clause_idx as int) {
                assert(self.clauses@[clause_idx as int].live_value().variables@.contains(open));
                assert(un0 is Some && un1 is None);
            }
        }
        match (un0, un1) {
            (None, _) => {
                match as0 {
                    None => {
                        let ghost before = *self;
                        self.instantly_unsat = true;
                        proof {
                            if self.has_variable(clause_idx as int) {
                                let u = choose|u: nat| #[trigger]
                                    self.sh()[clause_idx as int].unwrap().vars.contains(u);
                                assert(self.clauses@[clause_idx as int].live_value().variables@.contains(
                                    u,
                                ));
                                assert(self.unassigned_variables@.contains(u));
                                assert(false);
                            }
                            reveal(db_follows);
                            let s = self.sh()[clause_idx as int].unwrap();
                            assert forall|m: Set<nat>| !formula_holds(m, self.formula@) by {
                                if formula_holds(m, self.formula@) {
                                    assert(shape_holds(self.sh()[clause_idx as int].unwrap(), m));
                                    let w = choose|w: nat| #[trigger]
                                        s.vars.contains(w) && (m.contains(w) != s.negs.contains(w));
                                    assert(self.clauses@[clause_idx as int].live_value().variables@.contains(
                                        w,
                                    ));
                                    assert(self.unassigned_variables@.contains(w));
                                }
                            }
                            self.lemma_wf_after_watch(before);
                        }
                    },
                    Some(a) => {
                        let la = self.literal_in(clause_idx, a);
                        let lb = match as1 {
                            None => la,
                            Some(b) => self.literal_in(clause_idx, b),
                        };
                        self.watch_pair(la, lb, clause_idx);
                        proof {
                            self.lemma_paired_after(*old(self), clause_idx as int);
                            self.lemma_picked(
                                *old(self),
                                clause_idx as int,
                                la.as_int(),
                                lb.as_int(),
                            );
                        }
                    },
                }
                proof {
                    if track {
                        old(self).lemma_fit_has_unassigned(clause_idx);
                    }
                }
            },
            (Some(u), None) => {
                let lu = self.literal_in(clause_idx, u);
                let lb = match top {
                    None => lu,
                    Some(b) => self.literal_in(clause_idx, b),
                };
                proof {
                    if top is None {
                        assert forall|x: nat|
                            self.clauses@[clause_idx as int].live_value().variables@.contains(
                                x,
                            ) implies x == u by {
                            assert(self.unassigned_variables@.contains(x));
                            assert(x < u || x >= u + 1 || x == u);
                        }
                    }
                }
                self.watch_pair(lu, lb, clause_idx);
                if self.debug_writer.is_some() {
                    let text = self.clause_string(clause_idx);
                    trace::log(&mut self.debug_writer, trace::line_watch_unit(lu.to_isize(), &text));
                }
                let ghost before = *self;
                self.ready_for_unit_prop.set(clause_idx);
                proof {
                    self.lemma_wf_after_watch(before);
                    self.lemma_paired_after(*old(self), clause_idx as int);
                    assert forall|x: nat|
                        old(self).clauses@[clause_idx as int].live_value().variables@.contains(x)
                            && old(self).unassigned_variables@.contains(x) implies x == u by {
                        assert(x < u || x >= u + 1 || x == u);
                    }
                    self.lemma_picked(*old(self), clause_idx as int, lu.as_int(), lb.as_int());
                    if track {
                        old(self).lemma_fits_unit(clause_idx, u, top, lu.as_int(), lb.as_int());
                        self.lemma_install(*old(self), clause_idx, (lu.as_int(), lb.as_int()), true);
                    }
                }
            },
            (Some(a), Some(b)) => {
                let la = self.literal_in(clause_idx, a);
                let lb = self.literal_in(clause_idx, b);
                if self.debug_writer.is_some() {
                    let text = self.clause_string(clause_idx);
                    trace::log(
                        &mut self.debug_writer,
                        trace::line_watch_two(la.to_isize(), lb.to_isize(), &text),
                    );
                }
                self.watch_pair(la, lb, clause_idx);
                proof {
                    self.lemma_paired_after(*old(self), clause_idx as int);
                    self.lemma_picked(*old(self), clause_idx as int, la.as_int(), lb.as_int());
                    if track {
                        old(self).lemma_fits_two(clause_idx, a, b, la.as_int(), lb.as_int());
                        self.lemma_install(*old(self), clause_idx, (la.as_int(), lb.as_int()), false);
                    }
                }
            },
        }
    }

    /// Whether the clause newly stored in slot `idx` can be watched so
    /// that the invariant holds for it as for all the others: it is not
    /// ready, no literal of it is true, one at least is unassigned, an
    /// assigned one, if there is any, is of the current level, and a
    /// clause of one literal finds the trail at level zero.
    pub closed spec fn newly_fit(&self, idx: usize) -> bool {
        &&& idx < self.clauses@.len()
        &&& self.clauses@[idx as int].is_live()
        &&& !self.ready_for_unit_prop@.contains(idx as nat)
        &&& settle::settled_but(
            self.trail@,
            self.trail_entry_idx_by_var@,
            self.decision_level,
            self.sh(),
            self.pairs@,
            self.ready_for_unit_prop@,
            idx as int,
        )
        &&& exists|u: nat| #[trigger]
            self.sh()[idx as int].unwrap().vars.contains(u) && level_of(
                self.trail@,
                self.trail_entry_idx_by_var@,
                u,
            ) is None
        &&& forall|u: nat| #[trigger]
            self.sh()[idx as int].unwrap().vars.contains(u) && level_of(
                self.trail@,
                self.trail_entry_idx_by_var@,
                u,
            ) is Some ==> false_at(
                self.trail@,
                self.trail_entry_idx_by_var@,
                self.sh()[idx as int].unwrap().negs,
                u,
                self.trail@.len() as int,
            )
        &&& ((exists|u: nat| #[trigger]
            self.sh()[idx as int].unwrap().vars.contains(u) && level_of(
                self.trail@,
                self.trail_entry_idx_by_var@,
                u,
            ) is Some) ==> exists|u: nat| #[trigger]
            self.sh()[idx as int].unwrap().vars.contains(u) && level_of(
                self.trail@,
                self.trail_entry_idx_by_var@,
                u,
            ) == Some(self.decision_level))
        &&& (settle::lone(self.sh()[idx as int].unwrap()) ==> self.decision_level == 0)
    }

    /// The pair recorded for the clause newly stored in slot `idx` is
    /// what the rule of the watch index picks, and the pairs of all
    /// other clauses stay.
    proof fn lemma_picked(&self, before: Engine<B>, idx: int, x: int, y: int)
        requires
            before.wf(),
            0 <= idx < before.clauses@.len(),
            before.clauses@[idx].is_live(),
            self.pairs@ == before.pairs@.update(idx, Some((x, y))),
            before.clauses@[idx].live_value().has_lit(x),
            before.clauses@[idx].live_value().has_lit(y),
            x == y ==> forall|u: nat|
                before.clauses@[idx].live_value().variables@.contains(u) ==> u == lit_var(x),
            ({
                ||| forall|u: nat|
                    !(before.clauses@[idx].live_value().variables@.contains(u)
                        && before.unassigned_variables@.contains(u))
                ||| (before.unassigned_variables@.contains(lit_var(x)) && forall|u: nat|
                    before.clauses@[idx].live_value().variables@.contains(u)
                        && before.unassigned_variables@.contains(u) ==> u == lit_var(x))
                ||| (before.unassigned_variables@.contains(lit_var(x))
                    && before.unassigned_variables@.contains(lit_var(y)) && x != y)
            }),
        ensures
            before.picked(idx, (x, y)),
            self.pair_of(idx) == Some((x, y)),
            forall|k: int| k != idx ==> self.pair_of(k) == before.pair_of(k),
    {
        reveal(store_ok);
        before.lemma_pairs_sound();
        let s = before.sh()[idx].unwrap();
        assert(s == shape_of(before.clauses@[idx].live_value()));
    }

    /// Once the watched literals of the clause in slot `idx` are
    /// recorded, every stored clause has them where all the others had.
    proof fn lemma_paired_after(&self, before: Engine<B>, idx: int)
        requires
            before.wf(),
            0 <= idx < before.clauses@.len(),
            self.sh() == before.sh(),
            exists|pair: (int, int)| self.pairs@ == before.pairs@.update(idx, Some(pair)),
        ensures
            before.paired_but(idx) ==> self.paired(),
    {
        before.lemma_pairs_sound();
    }

    /// A clause that can be watched has an unassigned variable.
    proof fn lemma_fit_has_unassigned(&self, idx: usize)
        requires
            self.wf(),
            self.newly_fit(idx),
        ensures
            exists|w: nat|
                self.clauses@[idx as int].live_value().variables@.contains(w)
                    && self.unassigned_variables@.contains(w),
    {
        reveal(store_ok);
        let s = self.sh()[idx as int].unwrap();
        assert(s == shape_of(self.clauses@[idx as int].live_value()));
        let w = choose|w: nat| #[trigger]
            s.vars.contains(w) && level_of(self.trail@, self.trail_entry_idx_by_var@, w) is None;
        self.lemma_link(idx as int, w);
        assert(self.clauses@[idx as int].live_value().variables@.contains(w));
    }

    /// Once the pair that fits the clause in slot `idx` is recorded, and
    /// the clause marked as `mark` says, the invariant holds.
    proof fn lemma_install(&self, before: Engine<B>, idx: usize, pair: (int, int), mark: bool)
        requires
            before.wf(),
            before.newly_fit(idx),
            self.trail@ == before.trail@,
            self.trail_entry_idx_by_var@ == before.trail_entry_idx_by_var@,
            self.decision_level == before.decision_level,
            self.sh() == before.sh(),
            self.pairs@ == before.pairs@.update(idx as int, Some(pair)),
            self.ready_for_unit_prop@ == if mark {
                before.ready_for_unit_prop@.insert(idx as nat)
            } else {
                before.ready_for_unit_prop@
            },
            settle::fits(
                before.trail@,
                before.trail_entry_idx_by_var@,
                before.decision_level,
                before.sh()[idx as int].unwrap(),
                pair,
                mark,
            ),
        ensures
            self.settled(),
    {
        before.lemma_pairs_sound();
        settle::lemma_installed(
            self.trail@,
            self.trail_entry_idx_by_var@,
            self.decision_level,
            self.sh(),
            before.pairs@,
            self.pairs@,
            before.ready_for_unit_prop@,
            self.ready_for_unit_prop@,
            idx as int,
            pair,
            mark,
        );
    }

    /// Two unassigned literals of a newly stored clause fit it.
    proof fn lemma_fits_two(&self, idx: usize, a: usize, b: usize, la: int, lb: int)
        requires
            self.wf(),
            self.newly_fit(idx),
            a != b,
            self.clauses@[idx as int].live_value().variables@.contains(a as nat),
            self.unassigned_variables@.contains(a as nat),
            self.clauses@[idx as int].live_value().variables@.contains(b as nat),
            self.unassigned_variables@.contains(b as nat),
            la == if self.clauses@[idx as int].live_value().negatives@.contains(a as nat) {
                -(a as int)
            } else {
                a as int
            },
            lb == if self.clauses@[idx as int].live_value().negatives@.contains(b as nat) {
                -(b as int)
            } else {
                b as int
            },
        ensures
            settle::fits(
                self.trail@,
                self.trail_entry_idx_by_var@,
                self.decision_level,
                self.sh()[idx as int].unwrap(),
                (la, lb),
                false,
            ),
    {
        reveal(store_ok);
        let s = self.sh()[idx as int].unwrap();
        assert(s == shape_of(self.clauses@[idx as int].live_value()));
        self.lemma_link(idx as int, a as nat);
        self.lemma_link(idx as int, b as nat);
    }

    /// The one unassigned literal of a newly stored clause, with its
    /// assigned literal of the highest level or alone, fits the clause.
    proof fn lemma_fits_unit(&self, idx: usize, u: usize, top: Option<usize>, lu: int, lb: int)
        requires
            self.wf(),
            self.newly_fit(idx),
            self.clauses@[idx as int].live_value().variables@.contains(u as nat),
            self.unassigned_variables@.contains(u as nat),
            forall|x: nat|
                self.clauses@[idx as int].live_value().variables@.contains(x)
                    && self.unassigned_variables@.contains(x) ==> x == u,
            self.assigned_in(idx, top),
            top is None ==> forall|x: nat|
                self.clauses@[idx as int].live_value().variables@.contains(x)
                    ==> self.unassigned_variables@.contains(x),
            top is Some ==> forall|x: nat|
                self.clauses@[idx as int].live_value().variables@.contains(x)
                    && !self.unassigned_variables@.contains(x) ==> self.level_or_zero(x)
                    <= self.level_or_zero(top.unwrap() as nat),
            lu == if self.clauses@[idx as int].live_value().negatives@.contains(u as nat) {
                -(u as int)
            } else {
                u as int
            },
            lb == match top {
                None => lu,
                Some(b) => if self.clauses@[idx as int].live_value().negatives@.contains(b as nat) {
                    -(b as int)
                } else {
                    b as int
                },
            },
        ensures
            settle::fits(
                self.trail@,
                self.trail_entry_idx_by_var@,
                self.decision_level,
                self.sh()[idx as int].unwrap(),
                (lu, lb),
                true,
            ),
    {
        reveal(store_ok);
        reveal(trail_ok);
        let s = self.sh()[idx as int].unwrap();
        let t = self.trail@;
        let p = self.trail_entry_idx_by_var@;
        assert(s == shape_of(self.clauses@[idx as int].live_value()));
        self.lemma_link(idx as int, u as nat);
        assert forall|x: nat| #[trigger] s.vars.contains(x) && x != u implies false_at(
            t,
            p,
            s.negs,
            x,
            t.len() as int,
        ) by {
            self.lemma_link(idx as int, x);
        }
        assert(settle::unit_of(t, p, s, lu));
        match top {
            None => {
                assert(settle::sole(s, u as nat)) by {
                    assert forall|x: nat| #[trigger] s.vars.contains(x) implies x == u by {
                        assert(self.clauses@[idx as int].live_value().variables@.contains(x));
                        assert(self.unassigned_variables@.contains(x));
                    }
                }
            },
            Some(b) => {
                self.lemma_link(idx as int, b as nat);
                let y = choose|y: nat| #[trigger]
                    s.vars.contains(y) && level_of(t, p, y) == Some(self.decision_level);
                self.lemma_link(idx as int, y);
                settle::lemma_levels_bounded(t, p, self.decision_level, b as nat);
                assert(self.level_or_zero(y) <= self.level_or_zero(b as nat));
                assert(settle::level_at(t, p, lb) == self.decision_level);
                assert(lu != lb);
            },
        }
    }

    /// The invariant is kept where only the occurrence index changes and
    /// its sets stay addressable.
    proof fn lemma_wf_after_by_var(&self, before: Engine<B>)
        requires
            before.wf(),
            *self == (Engine { clauses_by_var: self.clauses_by_var, ..before }),
            self.clauses_by_var@.len() == before.clauses_by_var@.len(),
            by_var_ok(self.clauses_by_var@),
        ensures
            self.wf(),
            self.sh() == before.sh(),
            self.decisions() == before.decisions(),
    {
    }

    /// Records, or with `present` false withdraws, the clause in slot
    /// `clause_idx` in the occurrence sets of its literals.
    pub(crate) fn note_occurrences(&mut self, clause_idx: usize, present: bool)
        requires
            old(self).wf(),
            clause_idx < old(self).clauses@.len(),
            old(self).clauses@[clause_idx as int].is_live(),
        ensures
            final(self).wf(),
            final(self).sh() == old(self).sh(),
            *final(self) == (Engine { clauses_by_var: final(self).clauses_by_var, ..*old(self) }),
            final(self).clauses_by_var@.len() == old(self).clauses_by_var@.len(),
            forall|v: int, pol: bool|
                0 <= v < old(self).clauses_by_var@.len() ==> (
                #[trigger] final(self).clauses_by_var@[v].pick(pol))@ == noted(
                    old(self).clauses_by_var@[v].pick(pol)@,
                    old(self).clauses@[clause_idx as int].live_value().has_lit(signed(v, pol)),
                    clause_idx as nat,
                    present,
                ),
    {
        proof {
            reveal(store_ok);
            reveal(covered);
            assert(self.sh()[clause_idx as int] == Some(
                shape_of(self.clauses@[clause_idx as int].live_value()),
            ));
        }
        let lits = self.clauses[clause_idx].value_exn().iter_literals();
        let mut i: usize = 0;
        proof {
            assert forall|j: int| 0 <= j < lits@.len() implies lit_var(
                (#[trigger] lits@[j]).as_int(),
            ) < self.clauses_by_var@.len() by {
                assert(self.clauses@[clause_idx as int].live_value().has_lit(lits@[j].as_int()));
                assert(self.sh()[clause_idx as int].unwrap().vars.contains(
                    lit_var(lits@[j].as_int()),
                ));
            }
        }
        while i < lits.len()
            invariant
                i <= lits@.len(),
                self.wf(),
                self.sh() == old(self).sh(),
                clause_idx < MAX_CLAUSES,
                forall|j: int|
                    0 <= j < lits@.len() ==> lit_var((#[trigger] lits@[j]).as_int())
                        < self.clauses_by_var@.len(),
                forall|j: int| 0 <= j < lits@.len() ==> (#[trigger] lits@[j]).as_int() != 0,
                *self == (Engine { clauses_by_var: self.clauses_by_var, ..*old(self) }),
                self.clauses_by_var@.len() == old(self).clauses_by_var@.len(),
                forall|v: int, pol: bool|
                    0 <= v < old(self).clauses_by_var@.len() ==> (
                    #[trigger] self.clauses_by_var@[v].pick(pol))@ == noted(
                        old(self).clauses_by_var@[v].pick(pol)@,
                        seen(lits@, i as int, signed(v, pol)),
                        clause_idx as nat,
                        present,
                    ),
            decreases lits@.len() - i,
        {
            let ghost before = *self;
            let ghost b0 = self.clauses_by_var@;
            let var: usize = lits[i].variable();
            let pol: bool = lits[i].value();
            proof {
                reveal(by_var_ok);
                assert(b0[var as int].first.wf() && b0[var as int].second.wf());
            }
            let set = self.clauses_by_var[var].get_mut(pol);
            if present {
                set.set(clause_idx);
            } else {
                set.clear(clause_idx);
            }
            proof {
                assert forall|v: int| 0 <= v < self.clauses_by_var@.len() implies (
                #[trigger] self.clauses_by_var@[v]).first.wf() && self.clauses_by_var@[v].second.wf() by {
                    assert(b0[v].first.wf() && b0[v].second.wf());
                    if v == var {
                        assert(self.clauses_by_var@[v].pick(!pol) == b0[v].pick(!pol));
                    }
                }
                self.lemma_wf_after_by_var(before);
                assert forall|v: int, q: bool|
                    0 <= v < old(self).clauses_by_var@.len() implies (
                #[trigger] self.clauses_by_var@[v].pick(q))@ == noted(
                    old(self).clauses_by_var@[v].pick(q)@,
                    seen(lits@, i + 1, signed(v, q)),
                    clause_idx as nat,
                    present,
                ) by {
                    let l = signed(v, q);
                    let was = old(self).clauses_by_var@[v].pick(q)@;
                    assert(b0[v].pick(q)@ == noted(
                        was,
                        seen(lits@, i as int, l),
                        clause_idx as nat,
                        present,
                    ));
                    if v == var && q == pol {
                        assert(lits@[i as int].as_int() == l);
                        assert(seen(lits@, i + 1, l));
                        assert(self.clauses_by_var@[v].pick(q)@ =~= noted(
                            was,
                            true,
                            clause_idx as nat,
                            present,
                        ));
                    } else {
                        assert(lits@[i as int].as_int() != l);
                        assert(self.clauses_by_var@[v].pick(q) == b0[v].pick(q));
                        if seen(lits@, i + 1, l) {
                            let j = choose|j: int| 0 <= j < i + 1 && lits@[j].as_int() == l;
                            assert(seen(lits@, i as int, l));
                        }
                    }
                }
            }
            i = i + 1;
        }
        proof {
            let c = old(self).clauses@[clause_idx as int].live_value();
            assert forall|v: int, q: bool| 0 <= v < old(self).clauses_by_var@.len() implies seen(
                lits@,
                lits@.len() as int,
                signed(v, q),
            ) == c.has_lit(#[trigger] signed(v, q)) by {
                let l = signed(v, q);
                if c.has_lit(l) {
                    let j = choose|j: int| 0 <= j < lits@.len() && #[trigger] lits@[j].as_int() == l;
                    assert(lits@[j].as_int() == l);
                }
                if seen(lits@, lits@.len() as int, l) {
                    let j = choose|j: int| 0 <= j < lits@.len() && lits@[j].as_int() == l;
                    assert(c.has_lit(lits@[j].as_int()));
                }
            }
        }
    }

    /// Handles the conflict in slot `failed_clause_idx`: a clause is
    /// derived from it; where all its literals are false at level zero
    /// the formula is refuted; else its literals gain activity, the trail
    /// is undone down to the second highest level of the clause, the
    /// ready set is emptied, and the clause is stored and watched, unless
    /// the clause table is full.
    #[verifier::rlimit(60)]
    #[verifier::spinoff_prover]
    pub(crate) fn backtrack(&mut self, failed_clause_idx: usize) -> (r: Backtracked)
        requires
            old(self).wf(),
            old(self).conflicting(failed_clause_idx),
        ensures
            final(self).wf(),
            final(self).formula() == old(self).formula(),
            final(self).exhausted == old(self).exhausted,
            final(self).decisions().subset_of(old(self).decisions()),
            r is Refuted ==> unsatisfiable(final(self).formula()),
            old(self).loose() && !(r is Refuted) ==> final(self).settled(),
            old(self).paired() ==> final(self).paired(),
            match r {
                Backtracked::Stored(k) => final(self).kept_learned(k as int) && (old(self).raised(
                    failed_clause_idx,
                ) ==> final(self).is_ready(k as int)),
                Backtracked::Full => final(self).table_full(),
                Backtracked::Refuted => true,
            },
            !(r is Refuted) ==> final(self).fell_from(*old(self)),
            old(self).raised(failed_clause_idx) && old(self).decision_level > 0 ==> !(r is Refuted),
            final(self).conflicts == old(self).conflicts,
            final(self).luby == old(self).luby,
    {
        let ghost raised = self.raised(failed_clause_idx);
        let learned = self.learn_clause_from_failure(failed_clause_idx);
        let top: usize = self.highest_decision_level(&learned);
        proof {
            if raised && self.decision_level > 0 {
                learned.variables.lemma_bounded();
                let tops = vars_at_level(
                    learned.variables@,
                    self.trail@,
                    self.trail_entry_idx_by_var@,
                    self.decision_level,
                );
                vstd::set_lib::lemma_len_subset(tops, learned.variables@);
                let w = tops.choose();
                assert(tops.contains(w)) by {
                    if tops =~= Set::<nat>::empty() {
                        assert(tops.len() == 0);
                    } else {
                        let x = choose|x: nat| tops.contains(x);
                        assert(tops.contains(x));
                    }
                }
                assert(learned.variables@.contains(w) && level_of(
                    self.trail@,
                    self.trail_entry_idx_by_var@,
                    w,
                ) == Some(self.decision_level));
                assert(top >= self.decision_level);
            }
        }
        if top == 0 {
            proof {
                reveal(trail_ok);
                let s = shape_of(learned);
                let t = self.trail@;
                let p = self.trail_entry_idx_by_var@;
                assert forall|u: nat| #[trigger] s.vars.contains(u) implies t[p[u as int].unwrap() as int].decision_level
                    == 0 by {
                    assert(false_at(t, p, s.negs, u, t.len() as int));
                    assert(learned.variables@.contains(u));
                    assert(level_of(t, p, u) is Some);
                }
                assert forall|m: Set<nat>| !formula_holds(m, self.formula@) by {
                    crate::trail::lemma_refuted_at_level_zero(
                        self.formula@,
                        self.sh(),
                        t,
                        p,
                        self.decision_level,
                        s,
                        m,
                    );
                }
            }
            return Backtracked::Refuted;
        }
        let lits = learned.iter_literals();
        let mut i: usize = 0;
        while i < lits.len()
            invariant
                i <= lits@.len(),
                self.wf(),
                self.formula() == old(self).formula(),
                self.exhausted == old(self).exhausted,
                self.decisions() == old(self).decisions(),
                self.learnable(learned),
                forall|j: int| 0 <= j < lits@.len() ==> learned.has_lit((#[trigger] lits@[j]).as_int()),
                self.trail == old(self).trail,
                self.trail_entry_idx_by_var == old(self).trail_entry_idx_by_var,
                self.decision_level == old(self).decision_level,
                self.pairs == old(self).pairs,
                self.sh() == old(self).sh(),
                self.conflicts == old(self).conflicts,
                self.luby == old(self).luby,
            decreases lits@.len() - i,
        {
            assert(learned.variables@.contains(lit_var(lits@[i as int].as_int())));
            self.add_vsids_activity(lits[i]);
            i = i + 1;
        }
        let remove_greater_than: usize = self.second_highest_decision_level(&learned);
        self.decay_vsids_activities();
        let ghost full = *self;
        self.backjump_to(remove_greater_than);
        let ghost before = *self;
        self.ready_for_unit_prop.clear_all();
        let ghost cut = *self;
        proof {
            self.lemma_wf_after_watch(before);
            full.lemma_second_below(learned, top, remove_greater_than);
            if old(self).loose() {
                self.lemma_after_cut(full, remove_greater_than);
            }
        }
        if self.clauses.len() >= MAX_CLAUSES && self.clauses_first_tombstone.is_none() {
            return Backtracked::Full;
        }
        let clause_idx: usize = self.push_clause(learned);
        self.note_occurrences(clause_idx, true);
        proof {
            if old(self).loose() {
                self.lemma_learned_fit(full, cut, learned, top, remove_greater_than, clause_idx);
            }
            let u = choose|u: nat| #[trigger]
                learned.variables@.contains(u) && level_of(
                    full.trail@,
                    full.trail_entry_idx_by_var@,
                    u,
                ) == Some(top);
            assert(self.sh()[clause_idx as int].unwrap().vars.contains(u));
            assert(self.has_variable(clause_idx as int));
            if raised {
                self.lemma_learned_unit(full, cut, learned, top, remove_greater_than, clause_idx);
            }
        }
        self.update_watch_literals_for_new_clause(clause_idx);
        Backtracked::Stored(clause_idx)
    }

    /// The clause derived from a conflict of the current level, stored
    /// after the trail was cut back to the second highest of its levels,
    /// has exactly one variable unassigned.
    proof fn lemma_learned_unit(
        &self,
        full: Engine<B>,
        cut: Engine<B>,
        learned: Clause<B>,
        top: usize,
        below: usize,
        idx: usize,
    )
        requires
            full.wf(),
            cut.wf(),
            self.wf(),
            learned.wf(),
            full.asserting(learned),
            falsified(full.trail@, full.trail_entry_idx_by_var@, shape_of(learned)),
            highest(learned.variables@, full.trail@, full.trail_entry_idx_by_var@, top),
            next_below(learned.variables@, full.trail@, full.trail_entry_idx_by_var@, top, below),
            top >= 1,
            cut.trail@ == full.trail@.take(cut.trail@.len() as int),
            cut.trail@.len() <= full.trail@.len(),
            forall|i: int|
                0 <= i < cut.trail@.len() ==> (#[trigger] full.trail@[i]).decision_level <= below,
            forall|i: int|
                cut.trail@.len() <= i < full.trail@.len() ==> (#[trigger] full.trail@[i]).decision_level
                    > below,
            cut.num_vars() == full.num_vars(),
            self.trail@ == cut.trail@,
            self.trail_entry_idx_by_var@ == cut.trail_entry_idx_by_var@,
            idx < self.clauses@.len(),
            self.clauses@[idx as int].is_live(),
            self.sh()[idx as int] == Some(shape_of(learned)),
        ensures
            self.one_open(idx as int),
    {
        let t = full.trail@;
        let p = full.trail_entry_idx_by_var@;
        let s = shape_of(learned);
        learned.variables.lemma_bounded();
        let tops = vars_at_level(s.vars, t, p, full.decision_level);
        vstd::set_lib::lemma_len_subset(tops, s.vars);
        let w = tops.choose();
        assert(tops.contains(w)) by {
            if tops =~= Set::<nat>::empty() {
                assert(tops.len() == 0);
            } else {
                let x = choose|x: nat| tops.contains(x);
                assert(tops.contains(x));
            }
        }
        assert(s.vars.contains(w) && level_of(t, p, w) == Some(full.decision_level));
        settle::lemma_levels_bounded(t, p, full.decision_level, w);
        let y = choose|y: nat| #[trigger] s.vars.contains(y) && level_of(t, p, y) == Some(top);
        settle::lemma_levels_bounded(t, p, full.decision_level, y);
        assert(top == full.decision_level);
        let r = crate::analysis::lemma_cut_unit(
            s,
            t,
            p,
            full.decision_level,
            cut.trail@,
            cut.trail_entry_idx_by_var@,
            cut.decision_level,
            cut.trail@.len() as int,
            below,
        );
        self.lemma_link(idx as int, r);
        assert forall|v: nat| #[trigger]
            s.vars.contains(v) && self.unassigned_variables@.contains(v) implies v == r by {
            self.lemma_link(idx as int, v);
        }
        let u = self.the_open(idx as int);
        assert(s.vars.contains(u) && self.unassigned_variables@.contains(u));
    }

    /// The second highest level of a clause with a literal above level
    /// zero lies below its highest, which the trail has reached.
    proof fn lemma_second_below(&self, c: Clause<B>, top: usize, below: usize)
        requires
            self.wf(),
            top >= 1,
            highest(c.variables@, self.trail@, self.trail_entry_idx_by_var@, top),
            second_highest(c.variables@, self.trail@, self.trail_entry_idx_by_var@, below),
        ensures
            next_below(c.variables@, self.trail@, self.trail_entry_idx_by_var@, top, below),
            below < top,
            top <= self.decision_level,
    {
        let t = self.trail@;
        let p = self.trail_entry_idx_by_var@;
        let other = choose|other: usize| #[trigger]
            highest(c.variables@, t, p, other) && next_below(c.variables@, t, p, other, below);
        let u = choose|u: nat| #[trigger] c.variables@.contains(u) && level_of(t, p, u) == Some(top);
        assert(top <= other);
        if other != top {
            let w = choose|w: nat| #[trigger]
                c.variables@.contains(w) && level_of(t, p, w) == Some(other);
            assert(false);
        }
        settle::lemma_levels_bounded(t, p, self.decision_level, u);
    }

    /// After a conflict, once the trail is cut back below the current
    /// level and no clause is ready, the invariant holds again.
    proof fn lemma_after_cut(&self, full: Engine<B>, below: usize)
        requires
            full.wf(),
            self.wf(),
            full.loose(),
            below < full.decision_level,
            self.trail@ == full.trail@.take(self.trail@.len() as int),
            self.trail@.len() <= full.trail@.len(),
            forall|i: int|
                0 <= i < self.trail@.len() ==> (#[trigger] full.trail@[i]).decision_level <= below,
            forall|i: int|
                self.trail@.len() <= i < full.trail@.len() ==> (#[trigger] full.trail@[i]).decision_level
                    > below,
            self.num_vars() == full.num_vars(),
            self.sh() == full.sh(),
            self.pairs == full.pairs,
            self.ready_for_unit_prop@ == Set::<nat>::empty(),
        ensures
            self.settled(),
            self.ready_empty(),
    {
        settle::lemma_after_backjump(
            full.trail@,
            full.trail_entry_idx_by_var@,
            full.decision_level,
            self.trail@,
            self.trail_entry_idx_by_var@,
            self.decision_level,
            self.trail@.len() as int,
            below,
            self.sh(),
            self.pairs@,
        );
    }

    /// The learned clause, stored after the trail was cut back to the
    /// second highest of its levels, can be watched so that the
    /// invariant holds.
    proof fn lemma_learned_fit(
        &self,
        full: Engine<B>,
        cut: Engine<B>,
        learned: Clause<B>,
        top: usize,
        below: usize,
        idx: usize,
    )
        requires
            full.wf(),
            cut.wf(),
            cut.settled(),
            cut.ready_for_unit_prop@ == Set::<nat>::empty(),
            top >= 1,
            falsified(full.trail@, full.trail_entry_idx_by_var@, shape_of(learned)),
            highest(learned.variables@, full.trail@, full.trail_entry_idx_by_var@, top),
            next_below(learned.variables@, full.trail@, full.trail_entry_idx_by_var@, top, below),
            cut.trail@ == full.trail@.take(cut.trail@.len() as int),
            cut.trail@.len() <= full.trail@.len(),
            forall|i: int|
                0 <= i < cut.trail@.len() ==> (#[trigger] full.trail@[i]).decision_level <= below,
            forall|i: int|
                cut.trail@.len() <= i < full.trail@.len() ==> (#[trigger] full.trail@[i]).decision_level
                    > below,
            cut.num_vars() == full.num_vars(),
            self.trail@ == cut.trail@,
            self.trail_entry_idx_by_var@ == cut.trail_entry_idx_by_var@,
            self.decision_level == cut.decision_level,
            self.ready_for_unit_prop@ == cut.ready_for_unit_prop@,
            idx < self.clauses@.len(),
            self.clauses@[idx as int].is_live(),
            self.sh().len() == self.clauses@.len(),
            self.sh()[idx as int] == Some(shape_of(learned)),
            cut.sh().len() <= self.sh().len() <= cut.sh().len() + 1,
            idx >= cut.sh().len() || self.sh().len() == cut.sh().len(),
            forall|k: int| 0 <= k < cut.sh().len() && k != idx ==> self.sh()[k] == cut.sh()[k],
            self.pairs@.len() == self.clauses@.len(),
            forall|k: int| 0 <= k < cut.sh().len() ==> self.pairs@[k] == cut.pairs@[k],
        ensures
            self.newly_fit(idx),
    {
        let s = shape_of(learned);
        settle::lemma_cut_fits(
            full.trail@,
            full.trail_entry_idx_by_var@,
            full.decision_level,
            cut.trail@,
            cut.trail_entry_idx_by_var@,
            cut.decision_level,
            cut.trail@.len() as int,
            top,
            below,
            s,
        );
        settle::lemma_stored(
            cut.trail@,
            cut.trail_entry_idx_by_var@,
            cut.decision_level,
            cut.sh(),
            cut.pairs@,
            self.sh(),
            self.pairs@,
            cut.ready_for_unit_prop@,
            idx as int,
        );
    }

    /// Whether the clause in slot `k` may leave when the table is
    /// thinned: it was derived after the formula was taken in, it
    /// justifies no trail entry, its literals were assigned at three or
    /// more levels, and it has three or more literals.
    pub closed spec fn trimmable(&self, k: int) -> bool {
        &&& self.num_initial_clauses <= k < self.clauses@.len()
        &&& self.clauses@[k].is_live()
        &&& self.clauses@[k].live_value().from_conflict
        &&& self.clauses@[k].live_value().num_units == 0
        &&& levels_of(
            self.clauses@[k].live_value().variables@,
            self.trail@,
            self.trail_entry_idx_by_var@,
        ).len() >= 3
        &&& self.clauses@[k].live_value().variables@.len() >= 3
    }

    /// The clauses in slots below `n` that may leave when the table is
    /// thinned, each as its activity and its slot, by ascending slot.
    pub closed spec fn candidates(&self, n: int) -> Seq<(u128, usize)>
        decreases n,
    {
        if n <= 0 {
            Seq::empty()
        } else if self.trimmable(n - 1) {
            self.candidates(n - 1).push(
                (self.clauses@[n - 1].live_value().score, (n - 1) as usize),
            )
        } else {
            self.candidates(n - 1)
        }
    }

    /// Every candidate below `n` is a clause that may leave, in a slot
    /// below `n`, and the slots of the candidates ascend.
    proof fn lemma_candidates(&self, n: int)
        requires
            0 <= n <= self.clauses@.len(),
            self.clauses@.len() <= usize::MAX,
        ensures
            forall|j: int|
                0 <= j < self.candidates(n).len() ==> self.trimmable(
                    (#[trigger] self.candidates(n)[j]).1 as int,
                ) && self.candidates(n)[j].1 < n,
            forall|a: int, b: int|
                0 <= a < b < self.candidates(n).len() ==> (#[trigger] self.candidates(n)[a]).1 < (
                #[trigger] self.candidates(n)[b]).1,
        decreases n,
    {
        if n > 0 {
            self.lemma_candidates(n - 1);
            let c = self.candidates(n);
            let b = self.candidates(n - 1);
            if self.trimmable(n - 1) {
                let x = (self.clauses@[n - 1].live_value().score, (n - 1) as usize);
                assert(c == b.push(x));
                assert forall|j: int| 0 <= j < c.len() implies self.trimmable(
                    (#[trigger] c[j]).1 as int,
                ) && c[j].1 < n by {
                    if j < b.len() {
                        assert(c[j] == b[j]);
                    }
                }
                assert forall|a: int, d: int| 0 <= a < d < c.len() implies (#[trigger] c[a]).1 < (
                #[trigger] c[d]).1 by {
                    assert(c[a] == b[a]);
                    if d < b.len() {
                        assert(c[d] == b[d]);
                    }
                }
            } else {
                assert(c == b);
            }
        }
    }

    /// No slot below the clauses of the formula holds a candidate.
    proof fn lemma_no_candidates(&self, n: int)
        requires
            n <= self.num_initial_clauses,
        ensures
            self.candidates(n) == Seq::<(u128, usize)>::empty(),
        decreases n,
    {
        if n > 0 {
            self.lemma_no_candidates(n - 1);
        }
    }

    /// Whether the clause table is that of `before` thinned by the slots
    /// in `drop`: the clause in each of them has left its slot free
    /// under the next generation, unless that generation cannot be
    /// counted, and every other slot is as it was.
    pub closed spec fn thinned(&self, before: Engine<B>, drop: Seq<usize>) -> bool {
        &&& self.clauses@.len() == before.clauses@.len()
        &&& forall|k: int|
            0 <= k < before.clauses@.len() ==> if drop.contains(k as usize)
                && before.clauses@[k].gen() < usize::MAX - 1 {
                before.dropped(#[trigger] self.clauses@[k], k)
            } else {
                self.clauses@[k] == before.clauses@[k]
            }
    }

    /// Whether the clause table is that of `before` with the less active
    /// half of the clauses that may leave taken out.
    pub closed spec fn halved(&self, before: Engine<B>) -> bool {
        exists|drop: Seq<usize>|
            weaker_half(before.candidates(before.clauses@.len() as int), drop)
                && #[trigger] self.thinned(before, drop)
    }

    /// Whether `slot` is what the clause in slot `k` leaves behind when
    /// the table is thinned: the clause was derived and justified no
    /// trail entry, and the slot is free under the next generation.
    pub closed spec fn dropped(&self, slot: TombStone<Clause<B>>, k: int) -> bool {
        &&& self.clauses@[k].is_live()
        &&& self.clauses@[k].live_value().from_conflict
        &&& self.clauses@[k].live_value().num_units == 0
        &&& !slot.is_live()
        &&& slot.gen() == self.clauses@[k].gen() + 1
    }

    /// Frees the slot `idx` of a derived clause that justifies no trail
    /// entry: its occurrences are withdrawn, its sets go back to the
    /// pool, and the slot joins the free list under the next generation.
    pub(crate) fn delete_clause(&mut self, idx: usize)
        requires
            old(self).wf(),
            idx < old(self).clauses@.len(),
            old(self).clauses@[idx as int].is_live(),
            old(self).clauses@[idx as int].live_value().from_conflict,
            old(self).clauses@[idx as int].live_value().num_units == 0,
            old(self).clauses@[idx as int].gen() < usize::MAX - 1,
        ensures
            final(self).wf(),
            final(self).formula() == old(self).formula(),
            final(self).exhausted == old(self).exhausted,
            final(self).clauses@.len() == old(self).clauses@.len(),
            !final(self).clauses@[idx as int].is_live(),
            final(self).clauses@[idx as int].gen() == old(self).clauses@[idx as int].gen() + 1,
            final(self).clauses@[idx as int].next_free() == old(self).clauses_first_tombstone,
            final(self).clauses_first_tombstone == Some(idx),
            forall|k: int|
                0 <= k < old(self).clauses@.len() && k != idx ==> final(self).clauses@[k] == old(
                    self,
                ).clauses@[k],
            final(self).pairs@ == old(self).pairs@.update(idx as int, None),
            old(self).settled() ==> final(self).settled(),
            old(self).paired() ==> final(self).paired(),
            final(self).bitset_pool@ == old(self).bitset_pool@.push(
                old(self).clauses@[idx as int].live_value().variables,
            ).push(old(self).clauses@[idx as int].live_value().negatives),
            final(self).clauses_by_var@.len() == old(self).clauses_by_var@.len(),
            forall|v: int, pol: bool|
                0 <= v < old(self).clauses_by_var@.len() ==> (
                #[trigger] final(self).clauses_by_var@[v].pick(pol))@ == noted(
                    old(self).clauses_by_var@[v].pick(pol)@,
                    old(self).clauses@[idx as int].live_value().has_lit(signed(v, pol)),
                    idx as nat,
                    false,
                ),
            *final(self) == (Engine {
                clauses: final(self).clauses,
                clauses_first_tombstone: final(self).clauses_first_tombstone,
                free: final(self).free,
                clauses_by_var: final(self).clauses_by_var,
                bitset_pool: final(self).bitset_pool,
                pairs: final(self).pairs,
                ..*old(self)
            }),
    {
        self.note_occurrences(idx, false);
        let ghost mid = *self;
        let gen: usize = *self.clauses[idx].generation();
        let next_gen: usize = gen + 1;
        let mut slot: TombStone<Clause<B>> = TombStone::TombStone(
            next_gen,
            self.clauses_first_tombstone,
        );
        std::mem::swap(&mut self.clauses[idx], &mut slot);
        proof {
            reveal(store_ok);
        }
        match slot {
            TombStone::T(_, clause) => {
                self.bitset_pool.release(clause.variables);
                self.bitset_pool.release(clause.negatives);
            },
            TombStone::TombStone(_, _) => {},
        }
        self.clauses_first_tombstone = Some(idx);
        proof {
            self.free = Ghost(seq![idx].add(self.free@));
            self.pairs = Ghost(self.pairs@.update(idx as int, None));
            self.lemma_wf_after_delete(mid, idx);
            mid.lemma_pairs_sound();
            if old(self).paired() {
                assert forall|k: int|
                    0 <= k < self.sh().len() && (#[trigger] self.sh()[k]) is Some implies self.pairs@[k] is Some by {
                    assert(k != idx);
                    assert(self.sh()[k] == mid.sh()[k]);
                    assert(old(self).sh()[k] is Some);
                }
            }
            if old(self).settled() {
                mid.lemma_pairs_sound();
                settle::lemma_freed(
                    self.trail@,
                    self.trail_entry_idx_by_var@,
                    self.decision_level,
                    mid.sh(),
                    mid.pairs@,
                    self.sh(),
                    self.pairs@,
                    self.ready_for_unit_prop@,
                    idx as int,
                );
            }
        }
    }

    /// The invariant is kept where a derived clause that justifies no
    /// trail entry leaves the table and its slot heads the free list.
    proof fn lemma_wf_after_delete(&self, before: Engine<B>, idx: usize)
        requires
            before.wf(),
            idx < before.clauses@.len(),
            before.clauses@[idx as int].is_live(),
            before.clauses@[idx as int].live_value().from_conflict,
            before.clauses@[idx as int].live_value().num_units == 0,
            self.clauses@.len() == before.clauses@.len(),
            !self.clauses@[idx as int].is_live(),
            self.clauses@[idx as int].next_free() == before.clauses_first_tombstone,
            forall|k: int|
                0 <= k < before.clauses@.len() && k != idx ==> self.clauses@[k]
                    == before.clauses@[k],
            self.clauses_first_tombstone == Some(idx),
            self.free@ == seq![idx].add(before.free@),
            self.clauses@[idx as int].gen() == before.clauses@[idx as int].gen() + 1,
            self.clauses@[idx as int].gen() < usize::MAX,
            self.pairs@ == before.pairs@.update(idx as int, None),
            pool_wf(self.bitset_pool),
            *self == (Engine {
                clauses: self.clauses,
                clauses_first_tombstone: self.clauses_first_tombstone,
                free: self.free,
                bitset_pool: self.bitset_pool,
                pairs: self.pairs,
                ..before
            }),
        ensures
            self.wf(),
    {
        let sh = self.sh();
        let old_sh = before.sh();
        let trail = self.trail@;
        let pos = self.trail_entry_idx_by_var@;
        assert forall|k: int| 0 <= k < old_sh.len() && k != idx implies sh[k] == old_sh[k] by {}
        assert(sh[idx as int] is None);
        assert(gens_ok(self.watched_clauses@, gens(self.clauses@))) by {
            reveal(gens_ok);
            let w = self.watched_clauses@;
            let g0 = gens(before.clauses@);
            let g = gens(self.clauses@);
            assert forall|v: int| 0 <= v < w.len() implies gens_below((#[trigger] w[v]).first@, g)
                && gens_below(w[v].second@, g) by {
                assert(gens_below(w[v].first@, g0) && gens_below(w[v].second@, g0));
            }
        }
        assert(pairs_ok(self.watched_clauses@, gens(self.clauses@), sh, self.pairs@)) by {
            reveal(pairs_ok);
            let w = self.watched_clauses@;
            let g0 = gens(before.clauses@);
            let g = gens(self.clauses@);
            assert forall|l: int, k: int| #[trigger] watching(w, g, sh, l, k) implies k != idx
                && watching(w, g0, old_sh, l, k) by {}
            assert forall|k: int| 0 <= k < self.pairs@.len() && (#[trigger] self.pairs@[k]) is Some implies pair_ok(
                w,
                g,
                sh,
                self.pairs@[k].unwrap(),
                k,
            ) by {
                assert(pair_ok(w, g0, old_sh, before.pairs@[k].unwrap(), k));
            }
        }
        assert forall|i: int|
            0 <= i < trail.len() && (#[trigger] trail[i]).reason is ClauseIdx implies trail[i].reason->ClauseIdx_0
            != idx by {
            reveal(units_ok);
        }
        assert(reasons_ok(trail, pos, sh)) by {
            reveal(reasons_ok);
            assert forall|i: int| 0 <= i < trail.len() implies #[trigger] crate::trail::reason_ok(
                trail,
                pos,
                sh,
                i,
            ) by {
                assert(crate::trail::reason_ok(trail, pos, old_sh, i));
            }
        }
        assert(units_ok(trail, self.clauses@)) by {
            reveal(units_ok);
        }
        assert(store_ok(self.clauses@)) by {
            reveal(store_ok);
        }
        assert(covered(sh, pos, self.all_variables@, self.unassigned_variables@)) by {
            reveal(covered);
            assert forall|k: int, u: nat|
                0 <= k < sh.len() && sh[k] is Some && #[trigger] sh[k].unwrap().vars.contains(
                    u,
                ) implies u < pos.len() && self.all_variables@.contains(u) && (
                self.unassigned_variables@.contains(u) || pos[u as int] is Some) by {
                assert(old_sh[k].unwrap().vars.contains(u));
            }
        }
        assert(free_ok(self.clauses@, self.free@, self.clauses_first_tombstone)) by {
            reveal(free_ok);
            let f0 = before.free@;
            let f = self.free@;
            assert forall|j: int| 0 <= j < f0.len() implies (#[trigger] f0[j]) != idx by {}
            assert forall|j: int| 0 <= j < f.len() implies (#[trigger] f[j]) < self.clauses@.len()
                && !self.clauses@[f[j] as int].is_live() && self.clauses@[f[j] as int].gen()
                < usize::MAX && self.clauses@[f[j] as int].next_free() == if j + 1 < f.len() {
                Some(f[j + 1])
            } else {
                None
            } by {
                if j > 0 {
                    assert(f[j] == f0[j - 1]);
                    if j + 1 < f.len() {
                        assert(f[j + 1] == f0[j]);
                    }
                } else {
                    if f0.len() > 0 {
                        assert(f[1] == f0[0]);
                    }
                }
            }
            assert forall|a: int, b: int| 0 <= a < f.len() && 0 <= b < f.len() && a != b implies f[a]
                != f[b] by {
                if a > 0 {
                    assert(f[a] == f0[a - 1]);
                }
                if b > 0 {
                    assert(f[b] == f0[b - 1]);
                }
            }
        }
        assert(watch_ok(self.watched_clauses@, self.clauses@.len())) by {
            reveal(watch_ok);
        }
        assert(db_follows(self.formula@, sh)) by {
            reveal(db_follows);
            assert forall|m: Set<nat>, k: int|
                formula_holds(m, self.formula@) && 0 <= k < sh.len() && sh[k] is Some implies #[trigger] shape_holds(
                sh[k].unwrap(),
                m,
            ) by {
                assert(shape_holds(old_sh[k].unwrap(), m));
            }
        }
        if !self.exhausted {
            assert(db_covers(self.formula@, sh)) by {
                reveal(db_covers);
                assert forall|m: Set<nat>| #[trigger]
                    crate::trail::originals_hold(sh, m) implies formula_holds(m, self.formula@) by {
                    assert forall|k: int|
                        0 <= k < old_sh.len() && (#[trigger] old_sh[k]) is Some
                            && !old_sh[k].unwrap().learned implies shape_holds(
                        old_sh[k].unwrap(),
                        m,
                    ) by {
                        assert(sh[k] == old_sh[k]);
                    }
                    assert(crate::trail::originals_hold(old_sh, m));
                }
            }
        }
    }

    /// Whether the clause may be dropped when the table is thinned: it
    /// justifies no trail entry, its literals were assigned at three or
    /// more distinct levels, and it has three or more literals.
    pub(crate) fn can_trim_clause(&self, clause: &Clause<B>) -> (r: bool)
        requires
            self.wf(),
            clause.wf(),
        ensures
            r == (clause.num_units == 0 && levels_of(
                clause.variables@,
                self.trail@,
                self.trail_entry_idx_by_var@,
            ).len() >= 3 && clause.variables@.len() >= 3),
    {
        let ghost t = self.trail@;
        let ghost p = self.trail_entry_idx_by_var@;
        let ghost vars = clause.variables@;
        let mut levels: Vec<usize> = Vec::new();
        let mut cursor: usize = 0;
        proof {
            clause.variables.lemma_bounded();
            assert(levels@.to_set() =~= levels_below(vars, t, p, 0));
        }
        loop
            invariant
                self.wf(),
                clause.wf(),
                t == self.trail@,
                p == self.trail_entry_idx_by_var@,
                vars == clause.variables@,
                cursor <= clause.variables.cap(),
                levels@.to_set() == levels_below(vars, t, p, cursor as nat),
            decreases clause.variables.cap() - cursor,
        {
            match clause.variables.first_set_ge(cursor) {
                None => {
                    proof {
                        assert(levels_below(vars, t, p, cursor as nat) =~= levels_of(vars, t, p)) by {
                            assert forall|l: usize| levels_of(vars, t, p).contains(l) implies levels_below(
                                vars,
                                t,
                                p,
                                cursor as nat,
                            ).contains(l) by {
                                let u = choose|u: nat| #[trigger]
                                    vars.contains(u) && level_of(t, p, u) == Some(l);
                                assert(u < cursor);
                            }
                        }
                    }
                    return clause.num_units == 0 && count_distinct(levels) >= 3
                        && clause.variables.count() >= 3;
                },
                Some(v) => {
                    let ghost before = levels@;
                    proof {
                        clause.variables.lemma_bounded();
                        assert(vars.contains(v as nat));
                    }
                    match self.level_of_var(v) {
                        None => {},
                        Some(level) => {
                            levels.push(level);
                        },
                    }
                    proof {
                        let want = levels_below(vars, t, p, (v + 1) as nat);
                        assert forall|l: usize| levels@.to_set().contains(l) implies want.contains(
                            l,
                        ) by {
                            let j = choose|j: int| 0 <= j < levels@.len() && levels@[j] == l;
                            if j < before.len() {
                                assert(before[j] == l);
                                assert(before.to_set().contains(l));
                                let u = choose|u: nat| #[trigger]
                                    vars.contains(u) && u < cursor && level_of(t, p, u) == Some(l);
                                assert(vars.contains(u) && u < v + 1);
                            } else {
                                assert(vars.contains(v as nat) && level_of(t, p, v as nat) == Some(
                                    l,
                                ));
                            }
                        }
                        assert forall|l: usize| want.contains(l) implies levels@.to_set().contains(
                            l,
                        ) by {
                            let u = choose|u: nat| #[trigger]
                                vars.contains(u) && u < v + 1 && level_of(t, p, u) == Some(l);
                            if u == v {
                                assert(levels@[levels@.len() - 1] == l);
                            } else {
                                assert(u < cursor);
                                assert(levels_below(vars, t, p, cursor as nat).contains(l));
                                assert(before.to_set().contains(l));
                                let j = choose|j: int| 0 <= j < before.len() && before[j] == l;
                                assert(levels@[j] == l);
                            }
                        }
                        assert(levels@.to_set() =~= want);
                    }
                    cursor = v + 1;
                },
            }
        }
    }

    /// Thins the table: of the derived clauses that may be dropped, the
    /// half with the least activity is freed.
    pub(crate) fn simplify_clauses(&mut self)
        requires
            old(self).wf(),
        ensures
            final(self).wf(),
            final(self).formula() == old(self).formula(),
            final(self).exhausted == old(self).exhausted,
            final(self).decisions() == old(self).decisions(),
            old(self).settled() ==> final(self).settled(),
            old(self).paired() ==> final(self).paired(),
            final(self).clauses@.len() == old(self).clauses@.len(),
            forall|k: int|
                0 <= k < old(self).clauses@.len() ==> #[trigger] final(self).clauses@[k] == old(
                    self,
                ).clauses@[k] || old(self).dropped(final(self).clauses@[k], k),
            final(self).halved(*old(self)),
            *final(self) == (Engine {
                clauses: final(self).clauses,
                clauses_first_tombstone: final(self).clauses_first_tombstone,
                free: final(self).free,
                clauses_by_var: final(self).clauses_by_var,
                bitset_pool: final(self).bitset_pool,
                pairs: final(self).pairs,
                ..*old(self)
            }),
    {
        let mut sorting_buckets: Vec<(u128, usize)> = Vec::new();
        let n: usize = self.clauses.len();
        let mut idx: usize = self.num_initial_clauses;
        proof {
            reveal(store_ok);
            self.lemma_no_candidates(idx as int);
        }
        while idx < n
            invariant
                self.wf(),
                n == self.clauses@.len(),
                *self == *old(self),
                sorting_buckets@ == self.candidates(idx as int),
                idx <= n || idx == self.num_initial_clauses,
                self.num_initial_clauses <= idx,
            decreases n - idx,
        {
            proof {
                reveal(store_ok);
            }
            match self.clauses[idx].value() {
                None => {
                    assert(!self.trimmable(idx as int));
                },
                Some(c) => {
                    if c.from_conflict && c.num_units == 0 && self.can_trim_clause(c) {
                        sorting_buckets.push((c.score, idx));
                        assert(self.trimmable(idx as int));
                    } else {
                        assert(!self.trimmable(idx as int));
                    }
                },
            }
            proof {
                assert(self.candidates(idx + 1) == if self.trimmable(idx as int) {
                    self.candidates(idx as int).push(
                        (self.clauses@[idx as int].live_value().score, idx),
                    )
                } else {
                    self.candidates(idx as int)
                });
            }
            idx = idx + 1;
        }
        let ghost cand = old(self).candidates(n as int);
        proof {
            if idx > n {
                self.lemma_no_candidates(n as int);
                self.lemma_no_candidates(idx as int);
            }
            assert(sorting_buckets@ == cand);
            self.lemma_candidates(n as int);
        }
        let to_drop = weakest_half(sorting_buckets);
        proof {
            lemma_half_members(cand, to_drop@);
            assert forall|j: int| 0 <= j < to_drop@.len() implies old(self).trimmable(
                (#[trigger] to_drop@[j]) as int,
            ) by {
                assert(slot_in(cand, to_drop@[j]));
                let a = choose|a: int| 0 <= a < cand.len() && (#[trigger] cand[a]).1 == to_drop@[j];
                assert(old(self).trimmable(cand[a].1 as int));
            }
        }
        let num_to_drop: usize = to_drop.len();
        let mut i: usize = 0;
        while i < num_to_drop
            invariant
                i <= num_to_drop,
                num_to_drop == to_drop@.len(),
                self.wf(),
                self.formula() == old(self).formula(),
                self.exhausted == old(self).exhausted,
                self.decisions() == old(self).decisions(),
                old(self).settled() ==> self.settled(),
                old(self).paired() ==> self.paired(),
                self.clauses@.len() == old(self).clauses@.len(),
                forall|k: int|
                    0 <= k < old(self).clauses@.len() ==> #[trigger] self.clauses@[k] == old(
                        self,
                    ).clauses@[k] || old(self).dropped(self.clauses@[k], k),
                n == old(self).clauses@.len(),
                cand == old(self).candidates(n as int),
                weaker_half(cand, to_drop@),
                to_drop@.no_duplicates(),
                forall|j: int|
                    0 <= j < to_drop@.len() ==> old(self).trimmable((#[trigger] to_drop@[j]) as int),
                self.thinned(*old(self), to_drop@.take(i as int)),
                *self == (Engine {
                    clauses: self.clauses,
                    clauses_first_tombstone: self.clauses_first_tombstone,
                    free: self.free,
                    clauses_by_var: self.clauses_by_var,
                    bitset_pool: self.bitset_pool,
                    pairs: self.pairs,
                    ..*old(self)
                }),
            decreases num_to_drop - i,
        {
            let clause_idx: usize = to_drop[i];
            let ghost at_start = *self;
            proof {
                assert(old(self).trimmable(to_drop@[i as int] as int));
                assert(!to_drop@.take(i as int).contains(clause_idx)) by {
                    if to_drop@.take(i as int).contains(clause_idx) {
                        let j = choose|j: int|
                            0 <= j < i && to_drop@.take(i as int)[j] == clause_idx;
                        assert(to_drop@[j] == to_drop@[i as int]);
                    }
                }
                assert(self.clauses@[clause_idx as int] == old(self).clauses@[clause_idx as int]);
            }
            if clause_idx < self.clauses.len() {
                let may: bool = match self.clauses[clause_idx].value() {
                    None => false,
                    Some(c) => c.from_conflict && c.num_units == 0,
                };
                if may && *self.clauses[clause_idx].generation() < usize::MAX - 1 {
                    self.delete_clause(clause_idx);
                }
            }
            proof {
                let d0 = to_drop@.take(i as int);
                let d1 = to_drop@.take(i + 1);
                assert(d1 =~= d0.push(clause_idx));
                assert forall|k: int| 0 <= k < old(self).clauses@.len() implies if d1.contains(
                    k as usize,
                ) && old(self).clauses@[k].gen() < usize::MAX - 1 {
                    old(self).dropped(#[trigger] self.clauses@[k], k)
                } else {
                    self.clauses@[k] == old(self).clauses@[k]
                } by {
                    if k == clause_idx {
                        assert(d1[i as int] == clause_idx);
                        assert(d1.contains(k as usize));
                    } else {
                        assert(self.clauses@[k] == at_start.clauses@[k]);
                        if d1.contains(k as usize) {
                            let j = choose|j: int| 0 <= j < d1.len() && d1[j] == k as usize;
                            assert(j < i);
                            assert(d0[j] == k as usize);
                            assert(d0.contains(k as usize));
                        }
                        if d0.contains(k as usize) {
                            let j = choose|j: int| 0 <= j < d0.len() && d0[j] == k as usize;
                            assert(d1[j] == k as usize);
                        }
                    }
                }
            }
            i = i + 1;
        }
        proof {
            assert(to_drop@.take(i as int) =~= to_drop@);
        }
    }

    /// An engine without clauses and without variables.
    pub(crate) fn empty(bitset_pool: Pool<B>, debug_writer: Option<String>) -> (r: Self)
        requires
            pool_wf(bitset_pool),
        ensures
            r.wf(),
            r.formula() == Seq::<Seq<isize>>::empty(),
            !r.exhausted,
            r.clauses@.len() == 0,
            r.trail@.len() == 0,
            r.settled(),
            r.trace() == trace::text_of(debug_writer),
    {
        let mut score_for_literal: Vec<TfPair<u128>> = Vec::new();
        score_for_literal.push(TfPair { first: 0, second: 0 });
        let mut watched_clauses: Vec<TfPair<BTreeMap<usize, usize>>> = Vec::new();
        watched_clauses.push(TfPair { first: BTreeMap::new(), second: BTreeMap::new() });
        let mut clauses_by_var: Vec<TfPair<B>> = Vec::new();
        clauses_by_var.push(TfPair { first: B::create(), second: B::create() });
        let mut trail_entry_idx_by_var: Vec<Option<usize>> = Vec::new();
        trail_entry_idx_by_var.push(None);
        let r = Engine {
            luby: Luby::new(32),
            conflicts: 0,
            cla_inc: SCORE_ONE,
            vsids_inc: SCORE_ONE,
            score_for_literal,
            literal_by_score: BTreeSet::new(),
            simplify_clauses_every: 2500,
            all_variables: B::create(),
            assignments: B::create(),
            clauses_first_tombstone: None,
            clauses: Vec::new(),
            watched_clauses,
            ready_for_unit_prop: B::create(),
            trail: Vec::new(),
            unassigned_variables: B::create(),
            num_initial_clauses: 0,
            clauses_by_var,
            trail_entry_idx_by_var,
            decision_level: 0,
            bitset_pool,
            iterations: 0,
            rng: crate::random::seeded(5),
            debug_writer,
            instantly_unsat: false,
            exhausted: false,
            free: Ghost(Seq::empty()),
            formula: Ghost(Seq::empty()),
            pairs: Ghost(Seq::empty()),
        };
        proof {
            reveal(trail_ok);
            reveal(assign_ok);
            reveal(reasons_ok);
            reveal(units_ok);
            reveal(store_ok);
            reveal(covered);
            reveal(free_ok);
            reveal(watch_ok);
            reveal(by_var_ok);
            reveal(scores_ok);
            reveal(db_follows);
            reveal(db_covers);
            reveal(gens_ok);
            reveal(pairs_ok);
            assert(r.all_variables@ =~= formula_vars(r.formula@));
            assert(r.watched_clauses@[0].first@ =~= Map::<usize, usize>::empty());
            assert(r.sh() =~= Seq::<Option<Shape>>::empty());
            assert(gens(r.clauses@) =~= Seq::<usize>::empty());
            reveal(settle::settled_all);
            reveal(crate::trail::levels_step);
            ranked::lemma_ranked_none(r.score_for_literal@);
        }
        r
    }

    /// Extends the per-variable tables to reach `num_vars` variables.
    pub(crate) fn grow_tables(&mut self, num_vars: usize)
        requires
            old(self).wf(),
            num_vars <= isize::MAX + 1,
        ensures
            final(self).wf(),
            final(self).num_vars() >= num_vars,
            final(self).num_vars() >= old(self).num_vars(),
            final(self).sh() == old(self).sh(),
            old(self).settled() && old(self).trail@.len() == 0 ==> final(self).settled(),
            *final(self) == (Engine {
                trail_entry_idx_by_var: final(self).trail_entry_idx_by_var,
                watched_clauses: final(self).watched_clauses,
                clauses_by_var: final(self).clauses_by_var,
                score_for_literal: final(self).score_for_literal,
                bitset_pool: final(self).bitset_pool,
                ..*old(self)
            }),
    {
        while self.trail_entry_idx_by_var.len() < num_vars
            invariant
                self.wf(),
                num_vars <= isize::MAX + 1,
                self.num_vars() >= old(self).num_vars(),
                self.sh() == old(self).sh(),
                *self == (Engine {
                    trail_entry_idx_by_var: self.trail_entry_idx_by_var,
                    watched_clauses: self.watched_clauses,
                    clauses_by_var: self.clauses_by_var,
                    score_for_literal: self.score_for_literal,
                    bitset_pool: self.bitset_pool,
                    ..*old(self)
                }),
            decreases num_vars - self.trail_entry_idx_by_var@.len(),
        {
            let ghost before = *self;
            let first = take_bitset(&mut self.bitset_pool);
            let second = take_bitset(&mut self.bitset_pool);
            self.clauses_by_var.push(TfPair { first, second });
            self.watched_clauses.push(TfPair { first: BTreeMap::new(), second: BTreeMap::new() });
            self.score_for_literal.push(TfPair { first: 0, second: 0 });
            self.trail_entry_idx_by_var.push(None);
            proof {
                self.lemma_wf_after_grow(before);
            }
        }
        proof {
            if old(self).settled() && old(self).trail@.len() == 0 {
                settle::lemma_empty_trail(
                    self.trail@,
                    old(self).trail_entry_idx_by_var@,
                    self.trail_entry_idx_by_var@,
                    self.decision_level,
                    self.sh(),
                    self.pairs@,
                    self.ready_for_unit_prop@,
                );
            }
        }
    }

    /// The invariant is kept where each per-variable table gains an
    /// empty entry for one more variable.
    proof fn lemma_wf_after_grow(&self, before: Engine<B>)
        requires
            before.wf(),
            before.trail_entry_idx_by_var@.len() <= isize::MAX,
            self.trail_entry_idx_by_var@ == before.trail_entry_idx_by_var@.push(None),
            self.watched_clauses@.len() == before.watched_clauses@.len() + 1,
            forall|v: int|
                0 <= v < before.watched_clauses@.len() ==> self.watched_clauses@[v]
                    == before.watched_clauses@[v],
            self.watched_clauses@[before.watched_clauses@.len() as int].first@ == Map::<
                usize,
                usize,
            >::empty(),
            self.watched_clauses@[before.watched_clauses@.len() as int].second@ == Map::<
                usize,
                usize,
            >::empty(),
            self.clauses_by_var@.len() == before.clauses_by_var@.len() + 1,
            forall|v: int|
                0 <= v < before.clauses_by_var@.len() ==> self.clauses_by_var@[v]
                    == before.clauses_by_var@[v],
            self.clauses_by_var@[before.clauses_by_var@.len() as int].first.wf(),
            self.clauses_by_var@[before.clauses_by_var@.len() as int].second.wf(),
            self.score_for_literal@ == before.score_for_literal@.push(
                TfPair { first: 0, second: 0 },
            ),
            pool_wf(self.bitset_pool),
            *self == (Engine {
                trail_entry_idx_by_var: self.trail_entry_idx_by_var,
                watched_clauses: self.watched_clauses,
                clauses_by_var: self.clauses_by_var,
                score_for_literal: self.score_for_literal,
                bitset_pool: self.bitset_pool,
                ..before
            }),
        ensures
            self.wf(),
            self.sh() == before.sh(),
    {
        assert(ranked_ok(
            self.literal_by_score@,
            self.score_for_literal@,
            self.unassigned_variables@,
        )) by {
            reveal(assign_ok);
            ranked::lemma_ranked_grown(
                before.literal_by_score@,
                before.score_for_literal@,
                self.score_for_literal@,
                before.unassigned_variables@,
            );
        }
        let t = self.trail@;
        let p0 = before.trail_entry_idx_by_var@;
        let p = self.trail_entry_idx_by_var@;
        let sh = self.sh();
        assert forall|v: int| 0 <= v < p0.len() implies p[v] == p0[v] by {}
        assert(trail_ok(t, p, self.decision_level)) by {
            reveal(trail_ok);
            assert forall|v: int| 0 <= v < p.len() && (#[trigger] p[v]) is Some implies p[v].unwrap()
                < t.len() && entry_var(t[p[v].unwrap() as int]) == v by {
                assert(p0[v] is Some);
            }
        }
        assert(assign_ok(
            t,
            p,
            self.assignments@,
            self.unassigned_variables@,
            self.all_variables@,
        )) by {
            reveal(assign_ok);
        }
        assert(reasons_ok(t, p, sh)) by {
            reveal(reasons_ok);
            assert forall|i: int| 0 <= i < t.len() implies #[trigger] crate::trail::reason_ok(
                t,
                p,
                sh,
                i,
            ) by {
                assert(crate::trail::reason_ok(t, p0, sh, i));
                if t[i].reason is ClauseIdx {
                    let k = t[i].reason->ClauseIdx_0;
                    let s = sh[k as int].unwrap();
                    assert forall|u: nat| #[trigger]
                        s.vars.contains(u) && u != entry_var(t[i]) implies false_at(
                        t,
                        p,
                        s.negs,
                        u,
                        i,
                    ) by {
                        assert(false_at(t, p0, s.negs, u, i));
                    }
                }
            }
        }
        assert(covered(sh, p, self.all_variables@, self.unassigned_variables@)) by {
            reveal(covered);
            assert forall|k: int, u: nat|
                0 <= k < sh.len() && sh[k] is Some && #[trigger] sh[k].unwrap().vars.contains(
                    u,
                ) implies u < p.len() && self.all_variables@.contains(u) && (
                self.unassigned_variables@.contains(u) || p[u as int] is Some) by {
                assert(u < p0.len());
            }
        }
        assert(watch_ok(self.watched_clauses@, self.clauses@.len())) by {
            reveal(watch_ok);
            assert forall|v: int| 0 <= v < self.watched_clauses@.len() implies keys_below(
                (#[trigger] self.watched_clauses@[v]).first@,
                self.clauses@.len(),
            ) && keys_below(self.watched_clauses@[v].second@, self.clauses@.len()) by {
                if v < before.watched_clauses@.len() {
                    assert(keys_below(before.watched_clauses@[v].first@, self.clauses@.len()));
                }
            }
        }
        assert(gens_ok(self.watched_clauses@, gens(self.clauses@))) by {
            reveal(gens_ok);
            let g = gens(self.clauses@);
            assert forall|v: int| 0 <= v < self.watched_clauses@.len() implies gens_below(
                (#[trigger] self.watched_clauses@[v]).first@,
                g,
            ) && gens_below(self.watched_clauses@[v].second@, g) by {
                if v < before.watched_clauses@.len() {
                    assert(gens_below(before.watched_clauses@[v].first@, g));
                }
            }
        }
        assert(pairs_ok(self.watched_clauses@, gens(self.clauses@), sh, self.pairs@)) by {
            reveal(pairs_ok);
            let g = gens(self.clauses@);
            let w0 = before.watched_clauses@;
            let w = self.watched_clauses@;
            assert forall|l: int, k: int| watching(w, g, sh, l, k) == watching(w0, g, sh, l, k) by {
                if lit_var(l) < w0.len() {
                    assert(w[lit_var(l) as int] == w0[lit_var(l) as int]);
                }
            }
            assert forall|k: int| 0 <= k < self.pairs@.len() && (#[trigger] self.pairs@[k]) is Some implies pair_ok(
                w,
                g,
                sh,
                self.pairs@[k].unwrap(),
                k,
            ) by {
                assert(pair_ok(w0, g, sh, self.pairs@[k].unwrap(), k));
            }
        }
        assert(by_var_ok(self.clauses_by_var@)) by {
            reveal(by_var_ok);
            assert forall|v: int| 0 <= v < self.clauses_by_var@.len() implies (
            #[trigger] self.clauses_by_var@[v]).first.wf() && self.clauses_by_var@[v].second.wf() by {
                if v < before.clauses_by_var@.len() {
                    assert(before.clauses_by_var@[v].first.wf());
                }
            }
        }
        assert(scores_ok(self.score_for_literal@, self.vsids_inc, self.cla_inc)) by {
            reveal(scores_ok);
            assert forall|v: int| 0 <= v < self.score_for_literal@.len() implies (
            #[trigger] self.score_for_literal@[v]).first <= SCORE_CAP
                && self.score_for_literal@[v].second <= SCORE_CAP by {
                if v < before.score_for_literal@.len() {
                    assert(before.score_for_literal@[v].first <= SCORE_CAP);
                }
            }
        }
    }

    /// Whether whatever makes the stored clauses that were not derived
    /// true is a model of `f`.
    pub closed spec fn covers(&self, f: Seq<Seq<isize>>) -> bool {
        db_covers(f, self.sh())
    }

    /// Whether the formula is marked as not fully stored: answers that
    /// rest on the stored clauses alone are then left to a search by
    /// enumeration.
    pub closed spec fn is_exhausted(&self) -> bool {
        self.exhausted
    }

    /// Whether some clause of the formula found no room in the clause
    /// table.
    pub(crate) fn lacks_clauses(&self) -> (r: bool)
        ensures
            r == self.is_exhausted(),
    {
        self.exhausted
    }

    /// The number of variables that the tables reach.
    pub(crate) fn table_size(&self) -> (r: usize)
        ensures
            r == self.num_vars(),
    {
        self.trail_entry_idx_by_var.len()
    }

    /// The largest variable among the literals, or zero where there is
    /// none.
    pub(crate) fn largest_variable(literals: &Vec<isize>) -> (r: usize)
        requires
            clause_ok(literals@),
        ensures
            r <= isize::MAX,
            forall|v: nat| clause_vars(literals@).contains(v) ==> v <= r,
    {
        let mut best: usize = 0;
        let mut j: usize = 0;
        while j < literals.len()
            invariant
                j <= literals@.len(),
                clause_ok(literals@),
                best <= isize::MAX,
                forall|t: int| 0 <= t < j ==> lit_var(#[trigger] literals@[t] as int) <= best,
            decreases literals@.len() - j,
        {
            let lit: isize = literals[j];
            let var: usize = if lit < 0 {
                (-lit) as usize
            } else {
                lit as usize
            };
            if var > best {
                best = var;
            }
            j = j + 1;
        }
        best
    }

    /// Takes the clause into the formula: its variables join those of
    /// the formula and the tables grow to reach them. Returns the clause
    /// in stored form, or nothing where it is a tautology. Until the
    /// clause is stored the formula counts as not fully stored.
    pub(crate) fn take_in(&mut self, literals: &Vec<isize>) -> (r: Option<Clause<B>>)
        requires
            old(self).wf(),
            clause_ok(literals@),
        ensures
            final(self).wf(),
            final(self).formula() == old(self).formula().push(literals@),
            final(self).is_exhausted(),
            !old(self).is_exhausted() ==> final(self).covers(old(self).formula()),
            final(self).decisions() == old(self).decisions(),
            final(self).trail@ == old(self).trail@,
            final(self).decision_level == old(self).decision_level,
            r.is_none() == tautology(literals@),
            match r {
                Some(c) => c.wf() && c.same_lits(literals@) && !c.from_conflict && c.score == 0
                    && c.num_units == 0,
                None => true,
            },
            old(self).settled() && old(self).trail@.len() == 0 ==> final(self).settled(),
            final(self).paired() == old(self).paired(),
            final(self).refuted() == old(self).refuted(),
    {
        let top: usize = Self::largest_variable(literals);
        self.grow_tables(top + 1);
        let ghost before = *self;
        let mut max_seen: usize = 0;
        let r = ingest_clause(
            literals,
            &mut self.bitset_pool,
            &mut self.all_variables,
            &mut max_seen,
        );
        proof {
            self.formula = Ghost(before.formula@.push(literals@));
        }
        self.exhausted = true;
        proof {
            self.lemma_wf_after_extend(before, literals@);
            if !old(self).exhausted {
                assert(self.sh() == old(self).sh());
            }
        }
        r
    }

    /// The invariant is kept where a clause joins the formula and its
    /// variables those of the formula, the tables reaching them, as long
    /// as the formula counts as not fully stored.
    proof fn lemma_wf_after_extend(&self, before: Engine<B>, c: Seq<isize>)
        requires
            before.wf(),
            clause_ok(c),
            forall|v: nat| clause_vars(c).contains(v) ==> v < before.trail_entry_idx_by_var@.len(),
            self.all_variables.wf(),
            self.all_variables@ == before.all_variables@.union(clause_vars(c)),
            self.formula@ == before.formula@.push(c),
            self.exhausted,
            pool_wf(self.bitset_pool),
            *self == (Engine {
                all_variables: self.all_variables,
                formula: self.formula,
                exhausted: self.exhausted,
                bitset_pool: self.bitset_pool,
                ..before
            }),
        ensures
            self.wf(),
            self.sh() == before.sh(),
    {
        lemma_clause_vars_range(c);
        lemma_formula_vars_push(before.formula@, c);
        assert(assign_ok(
            self.trail@,
            self.trail_entry_idx_by_var@,
            self.assignments@,
            self.unassigned_variables@,
            self.all_variables@,
        )) by {
            reveal(assign_ok);
        }
        assert(covered(
            self.sh(),
            self.trail_entry_idx_by_var@,
            self.all_variables@,
            self.unassigned_variables@,
        )) by {
            reveal(covered);
        }
        assert(db_follows(self.formula@, self.sh())) by {
            reveal(db_follows);
            let sh = self.sh();
            assert forall|m: Set<nat>, k: int|
                formula_holds(m, self.formula@) && 0 <= k < sh.len() && sh[k] is Some implies #[trigger] shape_holds(
                sh[k].unwrap(),
                m,
            ) by {
                lemma_formula_push(before.formula@, c, m);
            }
        }
        if self.instantly_unsat {
            assert forall|m: Set<nat>| !formula_holds(m, self.formula@) by {
                lemma_formula_push(before.formula@, c, m);
            }
        }
    }

    /// The invariant is kept where a variable of the formula that is not
    /// on the trail joins the unassigned ones.
    proof fn lemma_wf_after_release(&self, before: Engine<B>, var: nat)
        requires
            before.wf(),
            before.all_variables@.contains(var),
            var < before.trail_entry_idx_by_var@.len(),
            before.trail_entry_idx_by_var@[var as int] is None,
            self.unassigned_variables.wf(),
            self.unassigned_variables@ == before.unassigned_variables@.insert(var),
            *self == (Engine {
                unassigned_variables: self.unassigned_variables,
                literal_by_score: self.literal_by_score,
                ..before
            }),
            ranked_ok(
                self.literal_by_score@,
                self.score_for_literal@,
                self.unassigned_variables@,
            ),
        ensures
            self.wf(),
            self.sh() == before.sh(),
    {
        assert(assign_ok(
            self.trail@,
            self.trail_entry_idx_by_var@,
            self.assignments@,
            self.unassigned_variables@,
            self.all_variables@,
        )) by {
            reveal(assign_ok);
        }
        assert(covered(
            self.sh(),
            self.trail_entry_idx_by_var@,
            self.all_variables@,
            self.unassigned_variables@,
        )) by {
            reveal(covered);
        }
    }

    /// The formula counts as fully stored again where the stored
    /// clauses that were not derived make it true.
    pub(crate) fn mark_stored(&mut self)
        requires
            old(self).wf(),
            old(self).covers(old(self).formula()),
            has_empty(old(self).formula()) ==> old(self).refuted(),
        ensures
            final(self).wf(),
            !final(self).is_exhausted(),
            *final(self) == (Engine { exhausted: false, ..*old(self) }),
    {
        self.exhausted = false;
    }

    /// Stores a given clause that the formula already counts among
    /// its own: its variables take part in the search, it is stored,
    /// recorded in the occurrence index and watched. Returns whether it
    /// was stored; it is not where the clause table is full.
    pub(crate) fn enrol(&mut self, clause: Clause<B>, Ghost(c): Ghost<Seq<isize>>) -> (stored: bool)
        requires
            old(self).wf(),
            old(self).is_exhausted(),
            old(self).formula().len() > 0,
            old(self).formula().last() == c,
            clause_ok(c),
            clause.wf(),
            clause.same_lits(c),
            !clause.from_conflict,
            clause.score == 0,
            clause.num_units == 0,
        ensures
            final(self).wf(),
            final(self).formula() == old(self).formula(),
            final(self).is_exhausted(),
            final(self).trail@ == old(self).trail@,
            final(self).decisions() == old(self).decisions(),
            final(self).num_vars() == old(self).num_vars(),
            final(self).all_variables == old(self).all_variables,
            stored && old(self).covers(old(self).formula().drop_last()) ==> final(self).covers(
                final(self).formula(),
            ),
            old(self).settled() && old(self).trail@.len() == 0 && old(self).decision_level == 0
                && c.len() > 0 ==> final(self).settled(),
            old(self).paired() && c.len() > 0 ==> final(self).paired(),
            !old(self).table_full() ==> stored,
            final(self).clauses@.len() <= old(self).clauses@.len() + 1,
            old(self).refuted() ==> final(self).refuted(),
            stored && c.len() == 0 ==> final(self).refuted(),
            trace::grown(old(self).trace(), final(self).trace()),
    {
        let ghost f = self.formula@;
        proof {
            lemma_same_lits_vars(clause, c);
            assert(f =~= f.drop_last().push(c));
            lemma_formula_vars_push(f.drop_last(), c);
            assert forall|u: nat| clause.variables@.contains(u) implies self.all_variables@.contains(
                u,
            ) by {}
        }
        let vars = clause.variables.iter();
        let mut i: usize = 0;
        while i < vars.len()
            invariant
                i <= vars@.len(),
                self.wf(),
                self.exhausted,
                self.formula@ == f,
                self.sh() == old(self).sh(),
                self.trail@ == old(self).trail@,
                self.num_vars() == old(self).num_vars(),
                self.all_variables == old(self).all_variables,
                self.trail_entry_idx_by_var == old(self).trail_entry_idx_by_var,
                self.decision_level == old(self).decision_level,
                self.pairs == old(self).pairs,
                self.ready_for_unit_prop == old(self).ready_for_unit_prop,
                self.clauses == old(self).clauses,
                self.clauses_first_tombstone == old(self).clauses_first_tombstone,
                self.instantly_unsat == old(self).instantly_unsat,
                self.debug_writer == old(self).debug_writer,
                crate::fixed_bitset::ascending_listing(vars@, clause.variables@),
                forall|u: nat| clause.variables@.contains(u) ==> self.all_variables@.contains(u),
                forall|j: int| 0 <= j < i ==> self.tracks((#[trigger] vars@[j]) as nat),
                forall|u: nat| old(self).tracks(u) ==> self.tracks(u),
            decreases vars@.len() - i,
        {
            let ghost before = *self;
            let var: usize = vars[i];
            proof {
                reveal(assign_ok);
                assert(clause.variables@.contains(vars@[i as int] as nat));
            }
            if self.trail_entry_idx_by_var[var].is_none() {
                self.unassigned_variables.set(var);
                ranked::rank(&mut self.literal_by_score, &self.score_for_literal, var);
                proof {
                    ranked::lemma_ranked_with(
                        before.literal_by_score@,
                        self.score_for_literal@,
                        before.unassigned_variables@,
                        var as nat,
                    );
                    self.lemma_wf_after_release(before, var as nat);
                }
            }
            i = i + 1;
        }
        if self.clauses.len() >= MAX_CLAUSES && self.clauses_first_tombstone.is_none() {
            return false;
        }
        proof {
            reveal(assign_ok);
            assert forall|u: nat| #[trigger] clause.variables@.contains(u) implies u
                < self.trail_entry_idx_by_var@.len() && self.all_variables@.contains(u)
                && self.tracks(u) by {
                let j = choose|j: int| 0 <= j < vars@.len() && #[trigger] vars@[j] == u;
                assert(self.tracks(vars@[j] as nat));
            }
            assert forall|m: Set<nat>| formula_holds(m, self.formula@) implies #[trigger] shape_holds(
                shape_of(clause),
                m,
            ) by {
                lemma_formula_push(f.drop_last(), c, m);
                lemma_same_lits_holds(clause, c, m);
            }
        }
        let ghost sh0 = self.sh();
        let clause_idx: usize = self.push_clause(clause);
        proof {
            if old(self).covers(f.drop_last()) {
                reveal(db_covers);
                let sh = self.sh();
                assert forall|m: Set<nat>| #[trigger] originals_hold(sh, m) implies formula_holds(
                    m,
                    f,
                ) by {
                    assert forall|k: int|
                        0 <= k < sh0.len() && (#[trigger] sh0[k]) is Some && !sh0[k].unwrap().learned implies shape_holds(
                        sh0[k].unwrap(),
                        m,
                    ) by {
                        assert(sh[k] == sh0[k]);
                    }
                    assert(originals_hold(sh0, m));
                    assert(sh[clause_idx as int] == Some(shape_of(clause)));
                    assert(shape_holds(sh[clause_idx as int].unwrap(), m));
                    lemma_same_lits_holds(clause, c, m);
                    lemma_formula_push(f.drop_last(), c, m);
                }
            }
        }
        self.note_occurrences(clause_idx, true);
        let ghost noted = *self;
        self.ready_for_unit_prop.clear(clause_idx);
        proof {
            self.lemma_wf_after_watch(noted);
            if c.len() > 0 {
                assert(crate::sat::occurs(c, c.len() as int, c[0] as int));
                assert(clause.has_lit(c[0] as int));
                assert(self.sh()[clause_idx as int].unwrap().vars.contains(lit_var(c[0] as int)));
                assert(self.has_variable(clause_idx as int));
                if old(self).settled() && old(self).trail@.len() == 0 && old(self).decision_level
                    == 0 {
                    self.lemma_fresh_fit(*old(self), clause_idx, lit_var(c[0] as int));
                }
            }
        }
        self.update_watch_literals_for_new_clause(clause_idx);
        true
    }

    /// A clause with a literal, stored while the trail is empty, can be
    /// watched so that the invariant holds.
    proof fn lemma_fresh_fit(&self, before: Engine<B>, idx: usize, u: nat)
        requires
            before.settled(),
            self.trail@.len() == 0,
            self.decision_level == 0,
            self.trail@ == before.trail@,
            self.trail_entry_idx_by_var@ == before.trail_entry_idx_by_var@,
            self.decision_level == before.decision_level,
            self.ready_for_unit_prop@ == before.ready_for_unit_prop@.remove(idx as nat),
            idx < self.clauses@.len(),
            self.clauses@[idx as int].is_live(),
            self.sh().len() == self.clauses@.len(),
            self.sh()[idx as int] is Some,
            self.sh()[idx as int].unwrap().vars.contains(u),
            before.sh().len() <= self.sh().len() <= before.sh().len() + 1,
            idx >= before.sh().len() || self.sh().len() == before.sh().len(),
            forall|k: int| 0 <= k < before.sh().len() && k != idx ==> self.sh()[k] == before.sh()[k],
            self.pairs@.len() == self.clauses@.len(),
            forall|k: int| 0 <= k < before.sh().len() ==> self.pairs@[k] == before.pairs@[k],
        ensures
            self.newly_fit(idx),
    {
        settle::lemma_stored(
            before.trail@,
            before.trail_entry_idx_by_var@,
            before.decision_level,
            before.sh(),
            before.pairs@,
            self.sh(),
            self.pairs@,
            before.ready_for_unit_prop@,
            idx as int,
        );
        assert(level_of(self.trail@, self.trail_entry_idx_by_var@, u) is None);
    }

    /// Every variable of the formula is within the tables.
    pub(crate) proof fn lemma_variables_in_range(&self)
        requires
            self.wf(),
        ensures
            forall|v: nat| self.all_variables@.contains(v) ==> 1 <= v < self.num_vars(),
            self.num_vars() <= isize::MAX + 1,
            self.all_variables@ == formula_vars(self.formula()),
    {
        reveal(assign_ok);
    }

    /// The invariant is kept where the formula is exchanged for one of
    /// which it holds the clauses that are no tautologies, and the
    /// variables of the formula for those of the new one.
    proof fn lemma_wf_rebase(&self, before: Engine<B>, source: Seq<Seq<isize>>)
        requires
            before.wf(),
            formula_ok(source),
            before.formula@ == kept(source),
            self.formula@ == source,
            self.all_variables.wf(),
            self.all_variables@ == formula_vars(source),
            before.all_variables@.subset_of(self.all_variables@),
            forall|v: nat| formula_vars(source).contains(v) ==> 1 <= v
                < before.trail_entry_idx_by_var@.len(),
            *self == (Engine {
                all_variables: self.all_variables,
                formula: self.formula,
                ..before
            }),
        ensures
            self.wf(),
    {
        let sh = self.sh();
        assert(assign_ok(
            self.trail@,
            self.trail_entry_idx_by_var@,
            self.assignments@,
            self.unassigned_variables@,
            self.all_variables@,
        )) by {
            reveal(assign_ok);
        }
        assert(covered(
            sh,
            self.trail_entry_idx_by_var@,
            self.all_variables@,
            self.unassigned_variables@,
        )) by {
            reveal(covered);
        }
        assert(db_follows(source, sh)) by {
            reveal(db_follows);
            assert forall|m: Set<nat>, k: int|
                formula_holds(m, source) && 0 <= k < sh.len() && sh[k] is Some implies #[trigger] shape_holds(
                sh[k].unwrap(),
                m,
            ) by {
                lemma_kept_equivalent(source, m);
            }
        }
        if !self.exhausted {
            assert(db_covers(source, sh)) by {
                reveal(db_covers);
                assert forall|m: Set<nat>| #[trigger] originals_hold(sh, m) implies formula_holds(
                    m,
                    source,
                ) by {
                    lemma_kept_equivalent(source, m);
                }
            }
        }
        if self.instantly_unsat {
            assert forall|m: Set<nat>| !formula_holds(m, source) by {
                lemma_kept_equivalent(source, m);
            }
        }
        crate::sat::lemma_kept_empty(source);
    }

    /// An engine for the formula: each clause is stored and watched in
    /// the order given, and each literal starts with an activity of as
    /// many units as clauses hold it.
    pub(crate) fn new(formula: Formula<B>, bitset_pool: Pool<B>, debug_writer: Option<String>) -> (r:
        Self)
        requires
            formula.wf(),
            pool_wf(bitset_pool),
        ensures
            r.wf(),
            r.formula() == formula.source@,
            r.trail@.len() == 0,
            r.trail_literals().len() == 0,
            !has_empty(formula.source@) ==> r.settled(),
            formula.source@.len() < MAX_CLAUSES ==> !r.short_of_room(),
            formula.source@.len() < MAX_CLAUSES ==> !r.is_exhausted(),
            formula.source@.len() == 0 ==> r.ready_empty(),
            trace::grown(trace::text_of(debug_writer), r.trace()),
    {
        let ghost given = trace::text_of(debug_writer);
        let Formula { max_var, vars: seen, clauses, literal_counts: _, source } = formula;
        proof {
            assert forall|v: usize| seen@.contains(v) implies v <= isize::MAX by {
                assert(crate::sat::as_nats(seen@).contains(v as nat));
            }
        }
        let vars: B = crate::sat::ordered_variables(&seen);
        let mut clauses = clauses;
        let ghost ks = kept(source@);
        let mut e = Engine::empty(bitset_pool, debug_writer);
        e.grow_tables(max_var + 1);
        let n: usize = clauses.len();
        let mut k: usize = 0;
        proof {
            assert(e.formula@ =~= ks.take(0));
            crate::sat::lemma_kept_len(source@);
        }
        while k < n
            invariant
                k <= n,
                n == clauses@.len(),
                n == ks.len(),
                ks == kept(source@),
                formula_ok(source@),
                e.wf(),
                e.formula@ == ks.take(k as int),
                e.num_vars() > max_var,
                e.trail@.len() == 0,
                !has_empty(source@) ==> e.settled(),
                n <= source@.len(),
                e.clauses@.len() <= k,
                source@.len() < MAX_CLAUSES ==> !e.exhausted,
                trace::grown(given, e.trace()),
                vars@ == formula_vars(source@),
                forall|v: nat| vars@.contains(v) ==> 1 <= v <= max_var,
                e.all_variables@.subset_of(vars@),
                forall|j: int|
                    k <= j < n ==> (#[trigger] clauses@[j]).wf() && clauses@[j].same_lits(ks[j])
                        && !clauses@[j].from_conflict && clauses@[j].score == 0
                        && clauses@[j].num_units == 0,
            decreases n - k,
        {
            let mut clause = Clause::create(B::create(), B::create());
            std::mem::swap(&mut clauses[k], &mut clause);
            let was: bool = e.exhausted;
            let ghost before = e;
            let ghost c = ks[k as int];
            proof {
                lemma_kept_members(source@, k as int);
                lemma_same_lits_vars(clause, c);
                assert(ks.take(k + 1) =~= ks.take(k as int).push(c));
            }
            e.all_variables.union_with(&clause.variables);
            e.formula = Ghost(before.formula@.push(c));
            e.exhausted = true;
            proof {
                e.lemma_wf_after_extend(before, c);
                assert(e.formula@.drop_last() =~= before.formula@);
                reveal(trail_ok);
            }
            let ghost traced = e.trace();
            let stored: bool = e.enrol(clause, Ghost(c));
            proof {
                trace::lemma_grown(given, traced, e.trace());
            }
            if stored && !was {
                proof {
                    crate::sat::lemma_empty_push(before.formula@, c);
                }
                e.mark_stored();
            }
            k = k + 1;
        }
        let ghost before = e;
        e.all_variables = vars;
        e.formula = Ghost(source@);
        proof {
            assert(ks.take(n as int) =~= ks);
            e.lemma_wf_rebase(before, source@);
        }
        let nv: usize = e.score_for_literal.len();
        let mut v: usize = 0;
        while v < nv
            invariant
                v <= nv,
                e.wf(),
                nv == e.score_for_literal@.len(),
                e.formula@ == source@,
                e.trail@.len() == 0,
                !has_empty(source@) ==> e.settled(),
                source@.len() < MAX_CLAUSES ==> !e.short_of_room(),
                e.clauses@.len() <= n,
                trace::grown(given, e.trace()),
            decreases nv - v,
        {
            let ghost at_start = e;
            let ghost s0 = e.score_for_literal@;
            proof {
                reveal(by_var_ok);
                reveal(scores_ok);
            }
            let first: u128 = (e.clauses_by_var[v].first.count() as u128) * SCORE_ONE;
            let second: u128 = (e.clauses_by_var[v].second.count() as u128) * SCORE_ONE;
            proof {
                reveal(assign_ok);
            }
            let listed: bool = e.unassigned_variables.contains(v);
            if listed {
                ranked::unrank(&mut e.literal_by_score, &e.score_for_literal, v);
            }
            let ghost taken = e.literal_by_score@;
            e.score_for_literal.set(v, TfPair { first, second });
            if listed {
                ranked::rank(&mut e.literal_by_score, &e.score_for_literal, v);
            }
            proof {
                let un = e.unassigned_variables@;
                let s1 = e.score_for_literal@;
                if listed {
                    ranked::lemma_ranked_without(at_start.literal_by_score@, s0, un, v as nat);
                    ranked::lemma_ranked_same(taken, s0, s1, un.remove(v as nat));
                    ranked::lemma_ranked_with(taken, s1, un.remove(v as nat), v as nat);
                    assert(un.remove(v as nat).insert(v as nat) =~= un);
                } else {
                    ranked::lemma_ranked_same(at_start.literal_by_score@, s0, s1, un);
                }
            }
            proof {
                assert forall|u: int| 0 <= u < e.score_for_literal@.len() implies (
                #[trigger] e.score_for_literal@[u]).first <= SCORE_CAP
                    && e.score_for_literal@[u].second <= SCORE_CAP by {
                    if u != v {
                        assert(s0[u].first <= SCORE_CAP && s0[u].second <= SCORE_CAP);
                    }
                }
                e.lemma_wf_after_scores(at_start);
            }
            v = v + 1;
        }
        e.num_initial_clauses = e.clauses.len();
        proof {
            if source@.len() == 0 {
                assert(e.ready_for_unit_prop@ =~= Set::<nat>::empty());
            }
        }
        e
    }

    /// Adds a clause to the formula. A clause that is no tautology is
    /// stored and watched against the current trail, its literals gain
    /// activity, and the activity increment grows.
    pub(crate) fn add_clause(&mut self, literals: Vec<isize>)
        requires
            old(self).wf(),
            clause_ok(literals@),
        ensures
            final(self).wf(),
            final(self).formula() == old(self).formula().push(literals@),
            final(self).trail@.len() == 0,
            final(self).trail_literals().len() == 0,
            old(self).settled() && literals@.len() > 0 ==> final(self).settled(),
            old(self).paired() && literals@.len() > 0 ==> final(self).paired(),
            old(self).refuted() ==> final(self).refuted(),
    {
        if self.trail.len() > 0 {
            proof {
                if self.settled() {
                    self.lemma_settled_paired();
                }
            }
            self.restart();
        }
        proof {
            reveal(trail_ok);
        }
        let ghost track = old(self).settled();
        let was: bool = self.exhausted;
        let ghost f0 = self.formula@;
        match self.take_in(&literals) {
            None => {
                if !was {
                    proof {
                        reveal(db_covers);
                        let sh = self.sh();
                        assert forall|m: Set<nat>| #[trigger] originals_hold(sh, m) implies formula_holds(
                            m,
                            self.formula@,
                        ) by {
                            lemma_taut_holds(literals@, m);
                            lemma_formula_push(f0, literals@, m);
                        }
                        crate::sat::lemma_empty_push(f0, literals@);
                    }
                    self.mark_stored();
                }
            },
            Some(clause) => {
                let lits = clause.iter_literals();
                proof {
                    assert(self.formula@.drop_last() =~= f0);
                    lemma_same_lits_vars(clause, literals@);
                    lemma_formula_vars_push(f0, literals@);
                    self.lemma_variables_in_range();
                    assert(self.formula@ == f0.push(literals@));
                    assert forall|j: int| 0 <= j < lits@.len() implies lit_var(
                        (#[trigger] lits@[j]).as_int(),
                    ) < self.num_vars() by {
                        let v = lit_var(lits@[j].as_int());
                        assert(clause.has_lit(lits@[j].as_int()));
                        assert(clause.variables@.contains(v));
                        assert(clause_vars(literals@).contains(v));
                        assert(formula_vars(self.formula@).contains(v));
                        assert(self.all_variables@.contains(v));
                    }
                }
                let stored: bool = self.enrol(clause, Ghost(literals@));
                if stored {
                    if !was {
                        proof {
                            crate::sat::lemma_empty_push(f0, literals@);
                        }
                        self.mark_stored();
                    }
                    let mut i: usize = 0;
                    while i < lits.len()
                        invariant
                            i <= lits@.len(),
                            self.wf(),
                            self.formula@ == f0.push(literals@),
                            self.trail@.len() == 0,
                            track && literals@.len() > 0 ==> self.settled(),
                            old(self).paired() && literals@.len() > 0 ==> self.paired(),
                            old(self).refuted() ==> self.refuted(),
                            forall|j: int|
                                0 <= j < lits@.len() ==> lit_var((#[trigger] lits@[j]).as_int())
                                    < self.num_vars(),
                        decreases lits@.len() - i,
                    {
                        self.add_vsids_activity(lits[i]);
                        i = i + 1;
                    }
                    self.decay_vsids_activities();
                }
            },
        }
    }

    /// Whether the variable `v` is unassigned and takes part in the
    /// search.
    pub closed spec fn unassigned(&self, v: nat) -> bool {
        self.unassigned_variables@.contains(v)
    }

    /// The value that the trail gives the variable `v`, if it gives one.
    pub closed spec fn value_on_trail(&self, v: nat) -> Option<bool> {
        if v < self.trail_entry_idx_by_var@.len() && self.trail_entry_idx_by_var@[v as int] is Some
            && self.trail_entry_idx_by_var@[v as int].unwrap() < self.trail@.len() {
            Some(entry_val(self.trail@[self.trail_entry_idx_by_var@[v as int].unwrap() as int]))
        } else {
            None
        }
    }

    /// The level of the newest trail entry, or zero on an empty trail.
    pub closed spec fn level(&self) -> nat {
        self.decision_level as nat
    }

    /// Whether `var` is unassigned and takes part in the search.
    pub fn is_unassigned(&self, var: usize) -> (r: bool)
        ensures
            r == self.unassigned(var as nat),
    {
        self.unassigned_variables.contains(var)
    }

    /// The value that the trail gives `var`, if it gives one.
    pub fn value_of(&self, var: usize) -> (r: Option<bool>)
        requires
            self.wf(),
        ensures
            r == self.value_on_trail(var as nat),
    {
        proof {
            reveal(trail_ok);
        }
        if var >= self.trail_entry_idx_by_var.len() {
            return None;
        }
        match self.trail_entry_idx_by_var[var] {
            None => None,
            Some(idx) => Some(self.trail[idx].literal.value()),
        }
    }

    /// A model of the formula that makes every decided literal true
    /// gives each variable the value that the trail gives it.
    pub proof fn lemma_trail_value(&self, v: nat, m: Set<nat>)
        requires
            self.wf(),
            self.value_on_trail(v) is Some,
            formula_holds(m, self.formula()),
            forall|l: int| self.decisions().contains(l) ==> lit_holds(m, l),
        ensures
            m.contains(v) == self.value_on_trail(v).unwrap(),
    {
        reveal(trail_ok);
        let t = self.trail@;
        let p = self.trail_entry_idx_by_var@;
        crate::trail::lemma_agrees_from_lits(t, m);
        crate::trail::lemma_trail_follows(
            self.formula@,
            self.sh(),
            t,
            p,
            self.decision_level,
            m,
            t.len() as int,
        );
        let q = p[v as int].unwrap() as int;
        assert(lit_holds(m, t[q].literal.as_int()));
        assert(entry_var(t[q]) == v);
    }

    /// Where every literal of the clause in slot `k` is false on the
    /// trail, each model of the formula makes some decided literal false.
    pub proof fn lemma_conflict(&self, k: usize, m: Set<nat>)
        requires
            self.wf(),
            self.conflicting(k),
            formula_holds(m, self.formula()),
        ensures
            exists|l: int| self.decisions().contains(l) && !lit_holds(m, l),
    {
        let t = self.trail@;
        let p = self.trail_entry_idx_by_var@;
        assert(self.sh()[k as int] == Some(shape_of(self.clauses@[k as int].live_value())));
        crate::trail::lemma_conflict_refutes(
            self.formula@,
            self.sh(),
            t,
            p,
            self.decision_level,
            k as int,
            m,
        );
        if forall|l: int| self.decisions().contains(l) ==> lit_holds(m, l) {
            crate::trail::lemma_agrees_from_lits(t, m);
        }
    }

    /// At level zero nothing was decided.
    pub proof fn lemma_no_decisions(&self)
        requires
            self.wf(),
            self.level() == 0,
        ensures
            self.decisions() == Set::<int>::empty(),
    {
        reveal(trail_ok);
        let t = self.trail@;
        assert forall|l: int| !self.decisions().contains(l) by {
            if self.decisions().contains(l) {
                let i = choose|i: int|
                    0 <= i < t.len() && (#[trigger] t[i]).reason is Decision && t[i].literal.as_int()
                        == l;
                assert(t[i].decision_level <= t[t.len() - 1].decision_level);
            }
        }
        assert(self.decisions() =~= Set::<int>::empty());
    }

    /// Decides `literal`: it opens the next level on the trail.
    pub(crate) fn decide(&mut self, literal: Literal)
        requires
            old(self).wf(),
            literal.as_int() != 0,
            old(self).unassigned(lit_var(literal.as_int())),
        ensures
            final(self).wf(),
            final(self).formula() == old(self).formula(),
            final(self).is_exhausted() == old(self).is_exhausted(),
            final(self).decisions() == old(self).decisions().insert(literal.as_int()),
            old(self).settled() && old(self).ready_empty() ==> final(self).settled(),
            old(self).paired() ==> final(self).paired(),
            final(self).decided_from(*old(self), literal.as_int()),
    {
        proof {
            self.lemma_level_bound();
        }
        let ghost track = self.settled() && self.ready_empty();
        let level: usize = self.decision_level + 1;
        if self.debug_writer.is_some() {
            trace::log(&mut self.debug_writer, trace::line_decide(literal.to_isize(), level));
        }
        let trail_entry = TrailEntry {
            literal,
            decision_level: level,
            reason: Reason::Decision(literal),
        };
        proof {
            crate::trail::lemma_decisions_push(self.trail@, trail_entry);
            assert(self.awaits(trail_entry) == track);
        }
        let ghost before = *self;
        let r = self.add_to_trail(trail_entry);
        proof {
            assert(self.trail@.take(old(self).trail@.len() as int) =~= old(self).trail@);
            assert(self.trail@.last() == trail_entry);
            if track && r is Some {
                let c = r.unwrap();
                self.lemma_pairs_sound();
                assert(self.sh()[c as int] == Some(
                    shape_of(self.clauses@[c as int].live_value()),
                ));
                assert(trail_ok(
                    before.trail@,
                    before.trail_entry_idx_by_var@,
                    before.decision_level,
                ));
                assert(settle::pushed(
                    before.trail@,
                    before.trail_entry_idx_by_var@,
                    self.trail@,
                    self.trail_entry_idx_by_var@,
                    trail_entry,
                )) by {
                    reveal(assign_ok);
                }
                settle::lemma_decided_not_stuck(
                    before.trail@,
                    before.trail_entry_idx_by_var@,
                    before.decision_level,
                    self.trail@,
                    self.trail_entry_idx_by_var@,
                    self.decision_level,
                    trail_entry,
                    self.sh(),
                    self.pairs@,
                    self.ready_for_unit_prop@,
                    c as int,
                );
            }
        }
    }

    /// The level is below the largest machine integer: no level is
    /// higher than the trail is long, and the trail holds each variable
    /// once.
    proof fn lemma_level_bound(&self)
        requires
            self.wf(),
        ensures
            self.decision_level < usize::MAX,
    {
        reveal(trail_ok);
        let t = self.trail@;
        let p = self.trail_entry_idx_by_var@;
        if t.len() > 0 {
            assert(t[t.len() - 1].decision_level <= t.len());
            let vars = Seq::new(t.len(), |i: int| entry_var(t[i]));
            assert(vars.no_duplicates()) by {
                assert forall|i: int, j: int|
                    0 <= i < vars.len() && 0 <= j < vars.len() && i != j implies vars[i]
                    != vars[j] by {
                    assert(p[entry_var(t[i]) as int] == Some(i as usize));
                    assert(p[entry_var(t[j]) as int] == Some(j as usize));
                }
            }
            vars.unique_seq_to_set();
            crate::fixed_bitset::lemma_below_finite(p.len());
            assert(vars.to_set().subset_of(crate::fixed_bitset::below(p.len()))) by {
                assert forall|v: nat| vars.to_set().contains(v) implies crate::fixed_bitset::below(
                    p.len(),
                ).contains(v) by {
                    let i = choose|i: int| 0 <= i < vars.len() && vars[i] == v;
                    assert(entry_var(t[i]) < p.len());
                }
            }
            vstd::set_lib::lemma_len_subset(vars.to_set(), crate::fixed_bitset::below(p.len()));
        }
    }

    /// The slot of a stored clause whose literals are all false, if
    /// there is one.
    pub(crate) fn find_falsified(&self) -> (r: Option<usize>)
        requires
            self.wf(),
        ensures
            match r {
                Some(k) => self.conflicting(k),
                None => forall|k: int|
                    0 <= k < self.clauses@.len() && (#[trigger] self.clauses@[k]).is_live()
                        ==> sat_under(
                        shape_of(self.clauses@[k].live_value()),
                        self.assignments@,
                        self.unassigned_variables@,
                    ) || exists|u: nat|
                        self.clauses@[k].live_value().variables@.contains(u)
                            && self.unassigned_variables@.contains(u),
            },
    {
        let n: usize = self.clauses.len();
        let mut k: usize = 0;
        while k < n
            invariant
                k <= n,
                n == self.clauses@.len(),
                self.wf(),
                forall|j: int|
                    0 <= j < k && (#[trigger] self.clauses@[j]).is_live() ==> sat_under(
                        shape_of(self.clauses@[j].live_value()),
                        self.assignments@,
                        self.unassigned_variables@,
                    ) || exists|u: nat|
                        self.clauses@[j].live_value().variables@.contains(u)
                            && self.unassigned_variables@.contains(u),
            decreases n - k,
        {
            proof {
                reveal(store_ok);
            }
            match self.clauses[k].value() {
                None => {},
                Some(c) => {
                    if self.all_false(c) {
                        proof {
                            self.lemma_conflicting(k);
                        }
                        return Some(k);
                    }
                },
            }
            k = k + 1;
        }
        None
    }

    /// The value of every variable of the formula under the current
    /// assignment bits.
    pub(crate) fn assignments(&self) -> (r: BTreeMap<usize, bool>)
        requires
            self.wf(),
        ensures
            forall|v: usize| r@.contains_key(v) == self.all_variables@.contains(v as nat),
            forall|v: usize| r@.contains_key(v) ==> r@[v] == self.assignments@.contains(v as nat),
    {
        let vars = self.all_variables.iter();
        let mut out: BTreeMap<usize, bool> = BTreeMap::new();
        let mut i: usize = 0;
        while i < vars.len()
            invariant
                i <= vars@.len(),
                crate::fixed_bitset::ascending_listing(vars@, self.all_variables@),
                forall|v: usize|
                    out@.contains_key(v) == exists|j: int| 0 <= j < i && #[trigger] vars@[j] == v,
                forall|v: usize| out@.contains_key(v) ==> out@[v] == self.assignments@.contains(v as nat),
            decreases vars@.len() - i,
        {
            let var: usize = vars[i];
            out.insert(var, self.assignments.contains(var));
            i = i + 1;
            proof {
                assert forall|v: usize| out@.contains_key(v) == exists|j: int|
                    0 <= j < i && #[trigger] vars@[j] == v by {
                    if out@.contains_key(v) {
                        if v == var {
                            assert(vars@[i - 1] == v);
                        } else {
                            let j = choose|j: int| 0 <= j < i - 1 && #[trigger] vars@[j] == v;
                            assert(vars@[j] == v);
                        }
                    }
                }
            }
        }
        proof {
            assert forall|v: usize| out@.contains_key(v) == self.all_variables@.contains(
                v as nat,
            ) by {
                if out@.contains_key(v) {
                    let j = choose|j: int| 0 <= j < vars@.len() && #[trigger] vars@[j] == v;
                    assert(self.all_variables@.contains(vars@[j] as nat));
                }
                if self.all_variables@.contains(v as nat) {
                    let j = choose|j: int| 0 <= j < vars@.len() && #[trigger] vars@[j] == v as nat;
                    assert(vars@[j] == v);
                }
            }
        }
        out
    }

    /// The assignment with every variable of the formula that it lacks
    /// added as false, which leaves the assignment that it stands for
    /// as it is.
    pub(crate) fn filled(&self, model: BTreeMap<usize, bool>) -> (r: BTreeMap<usize, bool>)
        requires
            self.wf(),
        ensures
            model_of(r@) == model_of(model@),
            forall|v: usize|
                r@.contains_key(v) == (model@.contains_key(v) || formula_vars(self.formula()).contains(
                    v as nat,
                )),
    {
        let vars = self.all_variables.iter();
        let mut out = model;
        let mut i: usize = 0;
        proof {
            self.lemma_variables_in_range();
        }
        while i < vars.len()
            invariant
                i <= vars@.len(),
                crate::fixed_bitset::ascending_listing(vars@, self.all_variables@),
                model_of(out@) == model_of(model@),
                forall|v: usize|
                    out@.contains_key(v) == (model@.contains_key(v) || exists|j: int|
                        0 <= j < i && #[trigger] vars@[j] == v),
            decreases vars@.len() - i,
        {
            let var: usize = vars[i];
            let ghost before = out@;
            if !out.contains_key(&var) {
                out.insert(var, false);
                proof {
                    assert(model_of(out@) =~= model_of(before));
                }
            }
            i = i + 1;
            proof {
                assert forall|v: usize| out@.contains_key(v) == (model@.contains_key(v) || exists|
                    j: int,
                | 0 <= j < i && #[trigger] vars@[j] == v) by {
                    if v == var {
                        assert(vars@[i - 1] == v);
                    } else if exists|j: int| 0 <= j < i && #[trigger] vars@[j] == v {
                        let j = choose|j: int| 0 <= j < i && #[trigger] vars@[j] == v;
                        assert(j < i - 1);
                    }
                }
            }
        }
        proof {
            assert forall|v: usize| out@.contains_key(v) == (model@.contains_key(v) || formula_vars(
                self.formula(),
            ).contains(v as nat)) by {
                if exists|j: int| 0 <= j < vars@.len() && #[trigger] vars@[j] == v {
                    let j = choose|j: int| 0 <= j < vars@.len() && #[trigger] vars@[j] == v;
                    assert(self.all_variables@.contains(vars@[j] as nat));
                }
                if self.all_variables@.contains(v as nat) {
                    let j = choose|j: int| 0 <= j < vars@.len() && #[trigger] vars@[j] == v as nat;
                    assert(vars@[j] == v);
                }
            }
        }
        out
    }

    /// The values as an assignment of the variables of the formula: each
    /// variable of the formula with its value, false where the values
    /// do not reach it.
    pub(crate) fn model_from(&self, values: &Vec<bool>) -> (r: BTreeMap<usize, bool>)
        requires
            self.wf(),
        ensures
            forall|v: usize| r@.contains_key(v) == formula_vars(self.formula()).contains(v as nat),
            forall|v: usize|
                r@.contains_key(v) ==> r@[v] == crate::exhaustive::assigns(values@).contains(v as nat),
    {
        let vars = self.all_variables.iter();
        let mut out: BTreeMap<usize, bool> = BTreeMap::new();
        let mut i: usize = 0;
        while i < vars.len()
            invariant
                i <= vars@.len(),
                crate::fixed_bitset::ascending_listing(vars@, self.all_variables@),
                forall|v: usize|
                    out@.contains_key(v) == exists|j: int| 0 <= j < i && #[trigger] vars@[j] == v,
                forall|v: usize|
                    out@.contains_key(v) ==> out@[v] == crate::exhaustive::assigns(values@).contains(
                        v as nat,
                    ),
            decreases vars@.len() - i,
        {
            let var: usize = vars[i];
            let value: bool = var < values.len() && values[var];
            out.insert(var, value);
            i = i + 1;
            proof {
                assert forall|v: usize| out@.contains_key(v) == exists|j: int|
                    0 <= j < i && #[trigger] vars@[j] == v by {
                    if out@.contains_key(v) {
                        if v == var {
                            assert(vars@[i - 1] == v);
                        } else {
                            let j = choose|j: int| 0 <= j < i - 1 && #[trigger] vars@[j] == v;
                            assert(vars@[j] == v);
                        }
                    }
                }
            }
        }
        proof {
            self.lemma_variables_in_range();
            assert forall|v: usize| out@.contains_key(v) == self.all_variables@.contains(
                v as nat,
            ) by {
                if out@.contains_key(v) {
                    let j = choose|j: int| 0 <= j < vars@.len() && #[trigger] vars@[j] == v;
                    assert(self.all_variables@.contains(vars@[j] as nat));
                }
                if self.all_variables@.contains(v as nat) {
                    let j = choose|j: int| 0 <= j < vars@.len() && #[trigger] vars@[j] == v as nat;
                    assert(vars@[j] == v);
                }
            }
        }
        out
    }

    /// Reacts to what the search came upon. A conflict at level zero
    /// shows that the formula has no model. A conflict above it is
    /// analysed, a clause is derived and stored, the trail is undone to
    /// the level that the clause gives, and after as many conflicts as
    /// the restart schedule says the search starts over.
    pub(crate) fn react(&mut self, action: Action) -> (r: StepResult)
        requires
            old(self).wf(),
            match action {
                Action::Unsat => unsatisfiable(old(self).formula()),
                Action::FinishedUnitPropagation => true,
                Action::Continue(l) => l.as_int() != 0 && old(self).unassigned(lit_var(l.as_int())),
                Action::Contradiction(k) => old(self).conflicting(k),
            },
        ensures
            final(self).wf(),
            final(self).formula() == old(self).formula(),
            final(self).is_exhausted() == old(self).is_exhausted(),
            match r {
                StepResult::Done(SatResult::Unsat) => unsatisfiable(final(self).formula()),
                StepResult::Done(SatResult::Sat(_)) => false,
                _ => true,
            },
            match action {
                Action::Contradiction(_) => old(self).loose(),
                Action::Continue(_) => old(self).settled() && old(self).ready_empty(),
                _ => old(self).settled(),
            } ==> r == StepResult::Done(SatResult::Unsat) || final(self).settled(),
            old(self).paired() ==> final(self).paired(),
            match action {
                Action::Contradiction(c) => (r is Continue ==> final(self).fell_from(*old(self))
                    && final(self).rescheduled(*old(self)) && (old(self).raised(c)
                    ==> final(self).resumed())) && (old(self).raised(c) && old(self).level() > 0
                    ==> r is Continue),
                Action::Continue(l) => r is Continue && final(self).decided_from(
                    *old(self),
                    l.as_int(),
                ),
                Action::FinishedUnitPropagation => r is Continue && final(self).same_search(
                    *old(self),
                ),
                Action::Unsat => r == StepResult::Done(SatResult::Unsat),
            },
    {
        match action {
            Action::Unsat => StepResult::Done(SatResult::Unsat),
            Action::FinishedUnitPropagation => StepResult::Continue,
            Action::Continue(literal) => {
                self.decide(literal);
                StepResult::Continue
            },
            Action::Contradiction(failed_idx) => {
                if self.debug_writer.is_some() {
                    trace::log(
                        &mut self.debug_writer,
                        trace::line_conflict(failed_idx, self.decision_level),
                    );
                }
                if self.decision_level == 0 {
                    proof {
                        self.lemma_no_decisions();
                        assert forall|m: Set<nat>| !formula_holds(m, self.formula@) by {
                            if formula_holds(m, self.formula@) {
                                self.lemma_conflict(failed_idx, m);
                            }
                        }
                    }
                    return StepResult::Done(SatResult::Unsat);
                }
                if self.conflicts < u64::MAX {
                    self.conflicts = self.conflicts + 1;
                }
                match self.backtrack(failed_idx) {
                    Backtracked::Stored(_) => {},
                    Backtracked::Full => {},
                    Backtracked::Refuted => {
                        return StepResult::Done(SatResult::Unsat);
                    },
                }
                let ghost cut = *self;
                if self.conflicts >= self.luby.value() {
                    self.conflicts = 0;
                    let _ = self.luby.next();
                    proof {
                        if self.settled() {
                            self.lemma_settled_paired();
                        }
                    }
                    self.restart();
                    proof {
                        assert(old(self).trail@.take(0) =~= self.trail@);
                    }
                }
                StepResult::Continue
            },
        }
    }

    /// Closes a search that has no variable left to decide: where some
    /// stored clause has every literal false, that conflict is reacted
    /// to; else the assignment is a model of the formula.
    pub(crate) fn conclude(&mut self) -> (r: StepResult)
        requires
            old(self).wf(),
            forall|v: nat| !old(self).unassigned(v),
            !old(self).is_exhausted(),
        ensures
            final(self).wf(),
            final(self).formula() == old(self).formula(),
            final(self).is_exhausted() == old(self).is_exhausted(),
            match r {
                StepResult::Done(SatResult::Unsat) => unsatisfiable(final(self).formula()),
                StepResult::Done(SatResult::Sat(a)) => formula_holds(
                    model_of(a@),
                    final(self).formula(),
                ) && forall|v: usize|
                    a@.contains_key(v) == formula_vars(final(self).formula()).contains(v as nat),
                _ => true,
            },
            old(self).settled() ==> r == StepResult::Done(SatResult::Unsat) || final(self).settled(),
            old(self).paired() ==> final(self).paired(),
            r is Continue ==> final(self).fell_from(*old(self)),
            match r {
                StepResult::Done(SatResult::Sat(a)) => final(self).read_off(a@),
                _ => true,
            },
            old(self).formula().len() == 0 ==> r matches StepResult::Done(
                SatResult::Sat(_),
            ),
    {
        proof {
            if self.formula().len() == 0 {
                self.lemma_bare();
            }
            if self.settled() {
                settle::lemma_settled_loose(
                    self.trail@,
                    self.trail_entry_idx_by_var@,
                    self.decision_level,
                    self.sh(),
                    self.pairs@,
                    self.ready_for_unit_prop@,
                );
            }
        }
        match self.find_falsified() {
            Some(k) => self.react(Action::Contradiction(k)),
            None => {
                let a = self.assignments();
                proof {
                    assert forall|v: usize| #[trigger]
                        a@.contains_key(v) && self.value_on_trail(v as nat) is Some implies self.value_on_trail(
                        v as nat,
                    ) == Some(a@[v]) by {
                        reveal(assign_ok);
                        reveal(trail_ok);
                        let i = self.trail_entry_idx_by_var@[v as int].unwrap() as int;
                        assert(entry_var(self.trail@[i]) == v);
                    }
                    reveal(covered);
                    reveal(db_covers);
                    self.lemma_variables_in_range();
                    let m = model_of(a@);
                    let sh = self.sh();
                    assert forall|k: int|
                        0 <= k < sh.len() && (#[trigger] sh[k]) is Some && !sh[k].unwrap().learned implies shape_holds(
                        sh[k].unwrap(),
                        m,
                    ) by {
                        assert(self.clauses@[k].is_live());
                        let s = shape_of(self.clauses@[k].live_value());
                        assert forall|u: nat|
                            !(self.clauses@[k].live_value().variables@.contains(u)
                                && self.unassigned_variables@.contains(u)) by {
                            assert(!self.unassigned(u));
                        }
                        assert(sat_under(s, self.assignments@, self.unassigned_variables@));
                        let w = choose|w: nat| #[trigger]
                            s.vars.contains(w) && !self.unassigned_variables@.contains(w) && (
                            self.assignments@.contains(w) != s.negs.contains(w));
                        assert(sh[k].unwrap().vars.contains(w));
                        assert(self.all_variables@.contains(w));
                        assert(a@.contains_key(w as usize));
                        assert(m.contains(w) == self.assignments@.contains(w));
                    }
                    assert(originals_hold(sh, m));
                }
                StepResult::Done(SatResult::Sat(a))
            },
        }
    }

    /// Counts one step of the search; every so many steps the clause
    /// table is thinned and the clause increment grows.
    pub(crate) fn tick(&mut self)
        requires
            old(self).wf(),
        ensures
            final(self).wf(),
            final(self).formula() == old(self).formula(),
            final(self).is_exhausted() == old(self).is_exhausted(),
            final(self).decisions() == old(self).decisions(),
            old(self).settled() ==> final(self).settled(),
            old(self).paired() ==> final(self).paired(),
            final(self).refuted() == old(self).refuted(),
            final(self).ready_empty() == old(self).ready_empty(),
            final(self).same_search(*old(self)),
            final(self).iterations == if old(self).iterations + 1 >= old(
                self,
            ).simplify_clauses_every {
                0
            } else {
                old(self).iterations + 1
            },
            old(self).iterations + 1 < old(self).simplify_clauses_every ==> *final(self) == (Engine {
                iterations: final(self).iterations,
                ..*old(self)
            }),
            old(self).iterations + 1 >= old(self).simplify_clauses_every ==> exists|mid: Engine<B>|
                mid.halved(Engine { iterations: 0, ..*old(self) }) && #[trigger] final(self).decayed(
                    mid,
                ),
    {
        if self.iterations + 1 >= self.simplify_clauses_every {
            self.iterations = 0;
            self.simplify_clauses();
            let ghost mid = *self;
            self.decay_clause_activities();
            assert(self.decayed(mid));
        } else {
            self.iterations = self.iterations + 1;
        }
    }

    /// Whether the engine is `before` after the clause increment has
    /// grown by a third: it and the activities of the stored clauses are
    /// divided by the scale factor first where it would pass the cap,
    /// and all else is as it was.
    pub closed spec fn decayed(&self, before: Engine<B>) -> bool {
        &&& self.cla_inc == scaled_inc(before.cla_inc, before.cla_inc * 4 / 3 > SCORE_CAP) * 4 / 3
        &&& self.clauses@.len() == before.clauses@.len()
        &&& self.sh() == before.sh()
        &&& forall|k: int|
            0 <= k < before.clauses@.len() && before.clauses@[k].is_live() ==> (
            #[trigger] self.clauses@[k]).is_live() && self.clauses@[k].live_value().score == scaled(
                before.clauses@[k].live_value().score as int,
                before.cla_inc * 4 / 3 > SCORE_CAP,
            )
        &&& forall|k: int|
            0 <= k < before.clauses@.len() ==> (#[trigger] self.clauses@[k]) == rescored(
                before.clauses@[k],
                self.clauses@[k],
            )
        &&& *self == (Engine { clauses: self.clauses, cla_inc: self.cla_inc, ..before })
    }

    /// Whether the formula holds a clause without literals.
    pub(crate) fn known_unsat(&self) -> (r: bool)
        requires
            self.wf(),
        ensures
            r ==> unsatisfiable(self.formula()),
            r == self.refuted(),
    {
        self.instantly_unsat
    }

    /// Whether the assignment is read off the trail: no variable is
    /// unassigned, and every variable that the trail gives a value has
    /// that value in the assignment.
    pub closed spec fn read_off(&self, a: Map<usize, bool>) -> bool {
        &&& forall|v: nat| !self.unassigned(v)
        &&& forall|v: usize| #[trigger]
            a.contains_key(v) && self.value_on_trail(v as nat) is Some ==> self.value_on_trail(
                v as nat,
            ) == Some(a[v])
    }

    /// Whether a clause without literals was stored: the formula is
    /// known to have no model.
    pub closed spec fn refuted(&self) -> bool {
        self.instantly_unsat
    }

    /// A formula that is known to have no model has none.
    pub proof fn lemma_refuted_unsat(&self)
        requires
            self.wf(),
            self.refuted(),
        ensures
            unsatisfiable(self.formula()),
    {
    }

    /// A formula with a clause without literals, all of whose clauses
    /// found room, is known to have no model.
    pub proof fn lemma_empty_refuted(&self)
        requires
            self.wf(),
            has_empty(self.formula()),
            !self.is_exhausted(),
        ensures
            self.refuted(),
    {
    }

    /// Where the formula has no clause, no variable takes part in the
    /// search, no clause is stored, and the formula is not known to have
    /// no model.
    pub proof fn lemma_bare(&self)
        requires
            self.wf(),
            self.formula().len() == 0,
        ensures
            forall|v: nat| !self.unassigned(v),
            forall|k: usize| !self.conflicting(k),
            forall|k: int| self.stored(k) is None,
            !self.refuted(),
    {
        reveal(covered);
        reveal(assign_ok);
        reveal(db_follows);
        reveal(store_ok);
        let f = self.formula@;
        let m = Set::<nat>::empty();
        assert(formula_holds(m, f));
        assert(formula_vars(f) =~= Set::<nat>::empty());
        assert forall|k: int| 0 <= k < self.sh().len() implies self.sh()[k] is None by {
            if self.sh()[k] is Some {
                assert(shape_holds(self.sh()[k].unwrap(), m));
                let w = choose|w: nat| #[trigger] self.sh()[k].unwrap().vars.contains(w);
                assert(self.clauses@[k].live_value().variables@.contains(w));
                assert(self.all_variables@.contains(w));
            }
        }
        assert forall|k: usize| !self.conflicting(k) by {
            if self.conflicting(k) {
                assert(self.sh()[k as int] is Some);
            }
        }
        assert forall|v: nat| !self.unassigned(v) by {
            if self.unassigned(v) {
                assert(self.all_variables@.contains(v));
            }
        }
    }

    /// Whether a clause given, or one derived last, found the clause
    /// table at its limit.
    pub closed spec fn short_of_room(&self) -> bool {
        self.exhausted || self.table_full()
    }

    /// Whether the clause table has reached its limit and has no free
    /// slot.
    pub closed spec fn table_full(&self) -> bool {
        self.clauses@.len() >= MAX_CLAUSES && self.clauses_first_tombstone is None
    }

    /// The text of the debug trace written so far, if one is kept.
    pub closed spec fn trace(&self) -> Option<Seq<char>> {
        trace::text_of(self.debug_writer)
    }

    /// The debug trace written so far, if one is kept.
    pub(crate) fn trace_text(&self) -> (r: Option<String>)
        ensures
            match r {
                Some(t) => self.trace() == Some(t@),
                None => self.trace() is None,
            },
    {
        match &self.debug_writer {
            Some(w) => Some(w.clone()),
            None => None,
        }
    }

    /// Hands the debug trace over, if one is kept.
    pub(crate) fn into_trace(self) -> (r: Option<String>)
        ensures
            match r {
                Some(t) => self.trace() == Some(t@),
                None => self.trace() is None,
            },
    {
        self.debug_writer
    }

    /// The level of the trail entry at position `i`, or zero before the
    /// start of the trail.
    pub closed spec fn entry_level(&self, i: int) -> int {
        if 0 <= i < self.trail@.len() {
            self.trail@[i].decision_level as int
        } else {
            0
        }
    }

    /// The slot of the clause that forced the trail entry at position
    /// `i`, or nothing where the entry was decided.
    pub closed spec fn entry_reason(&self, i: int) -> Option<int> {
        match self.trail@[i].reason {
            Reason::Decision(_) => None,
            Reason::ClauseIdx(k) => Some(k as int),
        }
    }

    /// Every trail entry is a decision that opens the level above the
    /// one before it, or stays at the level before it and was forced by
    /// a stored clause: its literal is one of that clause, and the
    /// negation of `l`, any other literal of the clause, stands on the
    /// trail before it, at the position returned.
    pub proof fn lemma_trail_entry(&self, i: int, l: int) -> (j: int)
        requires
            self.wf(),
            0 <= i < self.trail_literals().len(),
        ensures
            match self.entry_reason(i) {
                None => self.entry_level(i) == self.entry_level(i - 1) + 1,
                Some(k) => {
                    &&& self.entry_level(i) == self.entry_level(i - 1)
                    &&& self.stored(k) is Some
                    &&& lit_in(
                        self.stored(k).unwrap().vars,
                        self.stored(k).unwrap().negs,
                        self.trail_literals()[i],
                    )
                    &&& lit_in(self.stored(k).unwrap().vars, self.stored(k).unwrap().negs, l) && l
                        != self.trail_literals()[i] ==> 0 <= j < i && self.trail_literals()[j] == -l
                },
            },
    {
        reveal(trail_ok);
        reveal(crate::trail::levels_step);
        reveal(reasons_ok);
        let t = self.trail@;
        let p = self.trail_entry_idx_by_var@;
        assert(t[i].decision_level == crate::trail::level_before(t, i) + (if t[i].reason is Decision {
            1int
        } else {
            0int
        }));
        assert(crate::trail::reason_ok(t, p, self.sh(), i));
        match t[i].reason {
            Reason::Decision(_) => 0,
            Reason::ClauseIdx(k) => {
                let s = self.sh()[k as int].unwrap();
                if lit_in(s.vars, s.negs, l) && l != t[i].literal.as_int() {
                    let u = lit_var(l);
                    assert(lit_in(s.vars, s.negs, t[i].literal.as_int()));
                    assert(u != entry_var(t[i]));
                    assert(false_at(t, p, s.negs, u, i));
                    let q = p[u as int].unwrap() as int;
                    assert(entry_var(t[q]) == u);
                    q
                } else {
                    0
                }
            },
        }
    }

    /// Whether the trail is that of `before` with entries added at its
    /// end.
    pub closed spec fn grew_from(&self, before: Engine<B>) -> bool {
        before.trail@.len() < self.trail@.len() && self.trail@.take(before.trail@.len() as int)
            == before.trail@
    }

    /// Whether the trail is that of `before` with entries taken off its
    /// end.
    pub closed spec fn cut_from(&self, before: Engine<B>) -> bool {
        self.trail@.len() < before.trail@.len() && before.trail@.take(self.trail@.len() as int)
            == self.trail@
    }

    /// Whether the trail is what is left of that of `before` below its
    /// current level.
    pub closed spec fn fell_from(&self, before: Engine<B>) -> bool {
        &&& self.trail@.len() <= before.trail@.len()
        &&& before.trail@.take(self.trail@.len() as int) == self.trail@
        &&& before.decision_level >= 1
        &&& forall|i: int|
            0 <= i < self.trail@.len() ==> (#[trigger] before.trail@[i]).decision_level
                < before.decision_level
    }

    /// The conflict count of `before` with one more conflict, as far as
    /// it can be counted.
    pub closed spec fn counted(before: Engine<B>) -> u64 {
        if before.conflicts < u64::MAX {
            (before.conflicts + 1) as u64
        } else {
            before.conflicts
        }
    }

    /// Whether the restart schedule is that of `before` after one more
    /// conflict: where the count has reached the value of the schedule,
    /// the trail is empty, the clauses of one literal and no others are
    /// ready, the count is zero and the schedule stands at its next
    /// term; else the conflict is counted and the schedule is as it was.
    pub closed spec fn rescheduled(&self, before: Engine<B>) -> bool {
        if Self::counted(before) >= before.luby.reach() {
            &&& self.trail@.len() == 0
            &&& forall|k: int|
                self.is_ready(k) <==> (#[trigger] self.stored(k)) is Some && settle::lone(
                    self.stored(k).unwrap(),
                )
            &&& self.conflicts == 0
            &&& self.luby.unit() == before.luby.unit()
            &&& self.luby.index() == if before.luby.index() < u64::MAX {
                before.luby.index() + 1
            } else {
                before.luby.index()
            }
        } else {
            self.conflicts == Self::counted(before) && self.luby == before.luby
        }
    }

    /// Whether the slot `k` holds a clause that was derived from a
    /// conflict.
    pub closed spec fn kept_learned(&self, k: int) -> bool {
        self.stored(k) is Some && self.stored(k).unwrap().learned
    }

    /// Whether a clause that was derived from a conflict stands ready.
    pub closed spec fn derived(&self) -> bool {
        exists|k: int| #[trigger] self.kept_learned(k) && self.is_ready(k)
    }

    /// Whether the search is as a conflict leaves it: a clause derived
    /// from it stands ready; or the clause table had no room for it; or
    /// the search has started over with an empty trail.
    pub closed spec fn resumed(&self) -> bool {
        self.trail@.len() == 0 || self.table_full() || self.derived()
    }

    /// Whether the trail is that of `before`.
    pub closed spec fn trail_kept(&self, before: Engine<B>) -> bool {
        self.trail@ == before.trail@
    }

    /// Whether trail, level and ready set are those of `before`.
    pub closed spec fn same_search(&self, before: Engine<B>) -> bool {
        &&& self.trail@ == before.trail@
        &&& self.decision_level == before.decision_level
        &&& self.ready_for_unit_prop@ == before.ready_for_unit_prop@
        &&& self.unassigned_variables@ == before.unassigned_variables@
    }

    /// A search has its own trail, level and ready set.
    pub proof fn lemma_same_self(&self)
        ensures
            self.same_search(*self),
    {
    }

    /// A search with the trail, level and ready set of another stands to
    /// a third as that other does.
    pub proof fn lemma_same_search(&self, mid: Engine<B>, first: Engine<B>, l: int)
        requires
            mid.same_search(first),
        ensures
            self.decided_from(mid, l) == self.decided_from(first, l),
            self.fell_from(mid) == self.fell_from(first),
            self.grew_from(mid) == self.grew_from(first),
            self.trail_kept(mid) == self.trail_kept(first),
            self.cut_from(mid) == self.cut_from(first),
            mid.level() == first.level(),
            mid.ready_empty() == first.ready_empty(),
            mid.trail_literals() == first.trail_literals(),
    {
    }

    /// The unassigned variables are those of a search with the same
    /// trail from which nothing was forced since.
    pub proof fn lemma_unassigned_same(&self, mid: Engine<B>, first: Engine<B>, v: nat)
        requires
            mid.same_search(first),
        ensures
            mid.unassigned(v) == first.unassigned(v),
    {
    }

    /// A trail that fell below the current level after it had grown, or
    /// stayed, at that level is a trail cut.
    pub proof fn lemma_fell_cut(&self, grown: Engine<B>, first: Engine<B>)
        requires
            first.wf(),
            grown.grew_from(first) || grown.trail_kept(first),
            grown.level() == first.level(),
            self.fell_from(grown),
        ensures
            self.cut_from(first),
    {
        reveal(trail_ok);
        let t0 = first.trail@;
        let t1 = grown.trail@;
        let t2 = self.trail@;
        assert(t0.len() > 0);
        let last = t0.len() - 1;
        assert(t0[last].decision_level == first.decision_level);
        if grown.grew_from(first) {
            assert(t1.take(t0.len() as int)[last] == t1[last]);
            assert(t1[last] == t0[last]);
        }
        assert(t1[last].decision_level == grown.decision_level);
        assert(t2.len() <= last);
        assert(t0.take(t2.len() as int) =~= t2) by {
            assert forall|i: int| 0 <= i < t2.len() implies t0[i] == t2[i] by {
                assert(t1.take(t2.len() as int)[i] == t1[i]);
                if grown.grew_from(first) {
                    assert(t1.take(t0.len() as int)[i] == t1[i]);
                }
            }
        }
    }

    /// Whether the trail is that of `before` with the literal `l` decided
    /// at the next level as its newest entry.
    pub closed spec fn decided_from(&self, before: Engine<B>, l: int) -> bool {
        &&& self.trail@.len() == before.trail@.len() + 1
        &&& self.trail@.take(before.trail@.len() as int) == before.trail@
        &&& self.trail@.last().literal.as_int() == l
        &&& self.trail@.last().reason is Decision
        &&& self.trail@.last().decision_level == before.decision_level + 1
    }

    /// What a grown, a cut and a decided trail are as lists of literals.
    pub proof fn lemma_trail_change(&self, before: Engine<B>, l: int)
        ensures
            self.grew_from(before) ==> before.trail_literals().len() < self.trail_literals().len()
                && self.trail_literals().take(before.trail_literals().len() as int)
                == before.trail_literals(),
            self.trail_kept(before) ==> self.trail_literals() == before.trail_literals(),
            self.cut_from(before) ==> self.trail_literals().len() < before.trail_literals().len()
                && before.trail_literals().take(self.trail_literals().len() as int)
                == self.trail_literals(),
            self.decided_from(before, l) ==> self.trail_literals() == before.trail_literals().push(l)
                && self.entry_reason(before.trail_literals().len() as int) is None
                && self.entry_level(before.trail_literals().len() as int) == before.level() + 1,
    {
        if self.grew_from(before) {
            assert(self.trail_literals().take(before.trail_literals().len() as int)
                =~= before.trail_literals()) by {
                assert forall|i: int| 0 <= i < before.trail@.len() implies self.trail@[i]
                    == before.trail@[i] by {
                    assert(self.trail@.take(before.trail@.len() as int)[i] == self.trail@[i]);
                }
            }
        }
        if self.cut_from(before) {
            assert(before.trail_literals().take(self.trail_literals().len() as int)
                =~= self.trail_literals()) by {
                assert forall|i: int| 0 <= i < self.trail@.len() implies self.trail@[i]
                    == before.trail@[i] by {
                    assert(before.trail@.take(self.trail@.len() as int)[i] == before.trail@[i]);
                }
            }
        }
        if self.decided_from(before, l) {
            assert(self.trail_literals() =~= before.trail_literals().push(l)) by {
                assert forall|i: int| 0 <= i < before.trail@.len() implies self.trail@[i]
                    == before.trail@[i] by {
                    assert(self.trail@.take(before.trail@.len() as int)[i] == self.trail@[i]);
                }
            }
        }
    }

    /// The trail gives the variable of each of its literals the value
    /// that makes the literal true.
    pub proof fn lemma_trail_polarity(&self, i: int)
        requires
            self.wf(),
            0 <= i < self.trail_literals().len(),
        ensures
            self.trail_literals()[i] != 0,
            self.value_on_trail(lit_var(self.trail_literals()[i])) == Some(
                self.trail_literals()[i] > 0,
            ),
            !self.unassigned(lit_var(self.trail_literals()[i])),
    {
        reveal(trail_ok);
        reveal(assign_ok);
        let e = self.trail@[i];
        assert(self.trail_entry_idx_by_var@[entry_var(e) as int] == Some(i as usize));
    }

    /// The literals on the trail, oldest first.
    pub closed spec fn trail_literals(&self) -> Seq<int> {
        Seq::new(self.trail@.len(), |i: int| self.trail@[i].literal.as_int())
    }

    /// No two entries of the trail are of one variable.
    pub proof fn lemma_trail_distinct(&self, i: int, j: int)
        requires
            self.wf(),
            0 <= i < j < self.trail_literals().len(),
        ensures
            lit_var(self.trail_literals()[i]) != lit_var(self.trail_literals()[j]),
    {
        reveal(trail_ok);
        let t = self.trail@;
        let p = self.trail_entry_idx_by_var@;
        assert(p[entry_var(t[i]) as int] == Some(i as usize));
        assert(p[entry_var(t[j]) as int] == Some(j as usize));
    }

    /// The watched-literals invariant: a false watched literal of a
    /// stored clause is excused by a true literal of the clause assigned
    /// no later, or the clause is ready; a ready clause that is not
    /// satisfied has one literal left, a watched one; and a clause of one
    /// literal has it assigned at level zero or is ready at level zero.
    pub closed spec fn settled(&self) -> bool {
        settle::settled_all(
            self.trail@,
            self.trail_entry_idx_by_var@,
            self.decision_level,
            self.sh(),
            self.pairs@,
            self.ready_for_unit_prop@,
        )
    }

    /// What is left of the watched-literals invariant after a conflict.
    pub closed spec fn loose(&self) -> bool {
        settle::loose_all(
            self.trail@,
            self.trail_entry_idx_by_var@,
            self.decision_level,
            self.sh(),
            self.pairs@,
        )
    }

    /// Whether no clause is ready.
    pub closed spec fn ready_empty(&self) -> bool {
        self.ready_for_unit_prop@ == Set::<nat>::empty()
    }

    /// Whether the pair `p` is what watches the clause newly stored in
    /// slot `idx`: two literals of the clause, one literal twice only
    /// where the clause has no other, with an unassigned literal first
    /// where there is one and unassigned literals only where there are
    /// two.
    pub closed spec fn picked(&self, idx: int, p: (int, int)) -> bool {
        let s = self.sh()[idx].unwrap();
        &&& lit_in(s.vars, s.negs, p.0)
        &&& lit_in(s.vars, s.negs, p.1)
        &&& (p.0 == p.1 ==> forall|u: nat| #[trigger] s.vars.contains(u) ==> u == lit_var(p.0))
        &&& ((exists|u: nat| #[trigger] s.vars.contains(u) && self.unassigned_variables@.contains(u))
            ==> self.unassigned_variables@.contains(lit_var(p.0)))
        &&& ((exists|u: nat, v: nat|
            u != v && #[trigger] s.vars.contains(u) && #[trigger] s.vars.contains(v)
                && self.unassigned_variables@.contains(u) && self.unassigned_variables@.contains(v))
            ==> self.unassigned_variables@.contains(lit_var(p.1)) && p.0 != p.1)
    }

    /// Whether exactly one variable of the clause stored in slot `idx` is
    /// unassigned.
    pub closed spec fn one_open(&self, idx: int) -> bool {
        let u = self.the_open(idx);
        &&& self.sh()[idx].unwrap().vars.contains(u)
        &&& self.unassigned_variables@.contains(u)
        &&& forall|v: nat| #[trigger]
            self.sh()[idx].unwrap().vars.contains(v) && self.unassigned_variables@.contains(v)
                ==> v == u
    }

    /// An unassigned variable of the clause stored in slot `idx`, where
    /// it has one.
    pub closed spec fn the_open(&self, idx: int) -> nat {
        choose|u: nat| #[trigger]
            self.sh()[idx].unwrap().vars.contains(u) && self.unassigned_variables@.contains(u)
    }

    /// Whether the clause stored in slot `idx` has a literal.
    pub closed spec fn has_variable(&self, idx: int) -> bool {
        exists|u: nat| #[trigger] self.sh()[idx].unwrap().vars.contains(u)
    }

    /// Whether every stored clause but the one in slot `idx` has its
    /// watched literals recorded.
    pub closed spec fn paired_but(&self, idx: int) -> bool {
        forall|k: int|
            0 <= k < self.sh().len() && k != idx && (#[trigger] self.sh()[k]) is Some
                ==> self.pairs@[k] is Some
    }

    /// Whether every stored clause has its watched literals recorded.
    pub closed spec fn paired(&self) -> bool {
        forall|k: int| 0 <= k < self.sh().len() && (#[trigger] self.sh()[k]) is Some ==> self.pairs@[k] is Some
    }

    /// The clause stored in slot `k`, if one is stored there.
    pub closed spec fn stored(&self, k: int) -> Option<Shape> {
        if 0 <= k < self.sh().len() {
            self.sh()[k]
        } else {
            None
        }
    }

    /// Whether the watch index lists the clause in slot `k`, as it is
    /// now stored there, under the literal `l`.
    pub closed spec fn watched_by(&self, l: int, k: int) -> bool {
        watching(self.watched_clauses@, gens(self.clauses@), self.sh(), l, k)
    }

    /// Whether the clause in slot `k` is marked ready.
    pub closed spec fn is_ready(&self, k: int) -> bool {
        k >= 0 && self.ready_for_unit_prop@.contains(k as nat)
    }

    /// Where the watched-literals invariant holds, a stored clause that
    /// no literal on the trail makes true and that is not ready is
    /// watched by two literals of its own, both unassigned.
    pub proof fn lemma_two_watchers(&self, k: int) -> (pair: (int, int))
        requires
            self.wf(),
            self.settled(),
            self.stored(k) is Some,
            !self.is_ready(k),
            forall|l: int|
                lit_in(self.stored(k).unwrap().vars, self.stored(k).unwrap().negs, l)
                    ==> self.value_on_trail(lit_var(l)) != Some(l > 0),
        ensures
            pair.0 != pair.1,
            lit_in(self.stored(k).unwrap().vars, self.stored(k).unwrap().negs, pair.0),
            lit_in(self.stored(k).unwrap().vars, self.stored(k).unwrap().negs, pair.1),
            self.watched_by(pair.0, k),
            self.watched_by(pair.1, k),
            self.value_on_trail(lit_var(pair.0)) is None,
            self.value_on_trail(lit_var(pair.1)) is None,
    {
        reveal(pairs_ok);
        let t = self.trail@;
        let p = self.trail_entry_idx_by_var@;
        let s = self.sh()[k].unwrap();
        self.lemma_pairs_sound();
        assert(!settle::satisfied(t, p, s)) by {
            if settle::satisfied(t, p, s) {
                let u = choose|u: nat| #[trigger] settle::held(t, p, s, u, usize::MAX);
                assert(u != 0) by {
                    reveal(trail_ok);
                    assert(entry_var(t[p[u as int].unwrap() as int]) == u);
                }
                let l = if s.negs.contains(u) {
                    -(u as int)
                } else {
                    u as int
                };
                assert(lit_in(s.vars, s.negs, l));
                assert(self.value_on_trail(lit_var(l)) == Some(l > 0));
            }
        }
        settle::lemma_two_watchers(
            t,
            p,
            self.decision_level,
            self.sh(),
            self.pairs@,
            self.ready_for_unit_prop@,
            k,
        );
        let pair = self.pairs@[k].unwrap();
        assert(pair_ok(self.watched_clauses@, gens(self.clauses@), self.sh(), pair, k));
        pair
    }

    /// Where the invariant holds, every stored clause has its watched
    /// literals recorded.
    pub proof fn lemma_settled_paired(&self)
        requires
            self.settled(),
            self.wf(),
        ensures
            self.paired(),
    {
        reveal(settle::settled_all);
        assert forall|k: int|
            0 <= k < self.sh().len() && (#[trigger] self.sh()[k]) is Some implies self.pairs@[k] is Some by {
            assert(settle::settled_at(
                self.trail@,
                self.trail_entry_idx_by_var@,
                self.decision_level,
                self.sh(),
                self.pairs@,
                self.ready_for_unit_prop@,
                k,
            ));
        }
    }

    /// Every recorded pair is of literals of its clause.
    proof fn lemma_pairs_sound(&self)
        requires
            self.wf(),
        ensures
            settle::pairs_sound(self.sh(), self.pairs@),
            self.pairs@.len() == self.sh().len(),
            self.sh().len() == self.clauses@.len(),
    {
        reveal(pairs_ok);
        let sh = self.sh();
        assert forall|k: int|
            0 <= k < sh.len() && sh[k] is Some && (#[trigger] self.pairs@[k]) is Some implies settle::pair_lits(
            sh[k].unwrap(),
            self.pairs@[k].unwrap(),
        ) by {
            assert(pair_ok(
                self.watched_clauses@,
                gens(self.clauses@),
                sh,
                self.pairs@[k].unwrap(),
                k,
            ));
        }
    }

    /// A variable of a stored clause is unassigned exactly if it is not
    /// on the trail, and the assignment bit of one on the trail is its
    /// value there.
    proof fn lemma_link(&self, k: int, u: nat)
        requires
            self.wf(),
            0 <= k < self.clauses@.len(),
            self.clauses@[k].is_live(),
            self.sh()[k].unwrap().vars.contains(u),
        ensures
            self.unassigned_variables@.contains(u) == (level_of(
                self.trail@,
                self.trail_entry_idx_by_var@,
                u,
            ) is None),
            level_of(self.trail@, self.trail_entry_idx_by_var@, u) is Some
                ==> self.assignments@.contains(u) == entry_val(
                self.trail@[self.trail_entry_idx_by_var@[u as int].unwrap() as int],
            ),
    {
        reveal(covered);
        reveal(assign_ok);
        reveal(trail_ok);
        let t = self.trail@;
        let p = self.trail_entry_idx_by_var@;
        if p[u as int] is Some {
            let i = p[u as int].unwrap() as int;
            assert(entry_var(t[i]) == u);
        }
    }

    /// A stored clause is satisfied under the assignment bits exactly if
    /// a literal of it is true on the trail.
    proof fn lemma_link_sat(&self, k: int)
        requires
            self.wf(),
            0 <= k < self.clauses@.len(),
            self.clauses@[k].is_live(),
        ensures
            sat_under(self.sh()[k].unwrap(), self.assignments@, self.unassigned_variables@)
                == settle::satisfied(
                self.trail@,
                self.trail_entry_idx_by_var@,
                self.sh()[k].unwrap(),
            ),
    {
        let s = self.sh()[k].unwrap();
        let t = self.trail@;
        let p = self.trail_entry_idx_by_var@;
        if sat_under(s, self.assignments@, self.unassigned_variables@) {
            let v = choose|v: nat| #[trigger]
                s.vars.contains(v) && !self.unassigned_variables@.contains(v) && (
                self.assignments@.contains(v) != s.negs.contains(v));
            self.lemma_link(k, v);
            assert(settle::held(t, p, s, v, usize::MAX));
        }
        if settle::satisfied(t, p, s) {
            let u = choose|u: nat| #[trigger] settle::held(t, p, s, u, usize::MAX);
            self.lemma_link(k, u);
            assert(s.vars.contains(u) && !self.unassigned_variables@.contains(u) && (
            self.assignments@.contains(u) != s.negs.contains(u)));
        }
    }

    /// A literal is the one left of a stored clause under the assignment
    /// bits exactly if it is so on the trail.
    proof fn lemma_link_unit(&self, k: int, l: int)
        requires
            self.wf(),
            0 <= k < self.clauses@.len(),
            self.clauses@[k].is_live(),
        ensures
            unit_under(self.sh()[k].unwrap(), l, self.assignments@, self.unassigned_variables@)
                == settle::unit_of(
                self.trail@,
                self.trail_entry_idx_by_var@,
                self.sh()[k].unwrap(),
                l,
            ),
    {
        let s = self.sh()[k].unwrap();
        let t = self.trail@;
        let p = self.trail_entry_idx_by_var@;
        if lit_in(s.vars, s.negs, l) {
            self.lemma_link(k, lit_var(l));
        }
        if unit_under(s, l, self.assignments@, self.unassigned_variables@) {
            assert forall|u: nat| #[trigger] s.vars.contains(u) && u != lit_var(l) implies false_at(
                t,
                p,
                s.negs,
                u,
                t.len() as int,
            ) by {
                self.lemma_link(k, u);
                reveal(trail_ok);
            }
        }
        if settle::unit_of(t, p, s, l) {
            assert forall|u: nat| #[trigger]
                s.vars.contains(u) && u != lit_var(l) implies !self.unassigned_variables@.contains(
                u,
            ) && (self.assignments@.contains(u) == s.negs.contains(u)) by {
                self.lemma_link(k, u);
                assert(false_at(t, p, s.negs, u, t.len() as int));
            }
        }
    }
}

} // verus!
