//! The solver: a formula is taken in, and the search decides whether
//! some assignment makes all of its clauses true.

use crate::engine::{Action, Engine, UnitPropagationResult, MAX_CLAUSES};
use crate::bitset::{BTreeBitSet, BitSetT};
use crate::fixed_bitset::DefaultBitSet;
use crate::pool::Pool;
use crate::sat::{
    clause_ok, formula_holds, formula_ok, formula_vars, has_empty, lit_holds, lit_in, lit_var,
    model_of, pool_wf, Formula, Literal, SatResult, StepResult,
};
use crate::trace::{grown, text_of};
use crate::trail::Shape;
use std::collections::BTreeMap;
use std::marker::PhantomData;
use vstd::prelude::*;

verus! {

/// How the search picks the literal to decide next.
pub trait ConfigT: Sized {
    /// The kind of set that the solver keeps its variables and clause
    /// slots in.
    type BitSet: BitSetT;

    /// A literal of an unassigned variable to decide next, or nothing
    /// where no variable is unassigned. The search stays well formed and
    /// keeps its formula, its ready set and the watched-literals
    /// invariant.
    fn choose_literal(state: &mut Engine<Self::BitSet>) -> (r: Option<Literal>)
        requires
            old(state).wf(),
        ensures
            final(state).wf(),
            final(state).formula() == old(state).formula(),
            final(state).is_exhausted() == old(state).is_exhausted(),
            old(state).settled() ==> final(state).settled(),
            old(state).paired() ==> final(state).paired(),
            old(state).ready_empty() ==> final(state).ready_empty(),
            final(state).same_search(*old(state)),
            match r {
                Some(l) => l.as_int() != 0 && final(state).unassigned(lit_var(l.as_int())),
                None => forall|v: nat| !final(state).unassigned(v),
            },
    ;

    /// Whether each assignment that the search reports is checked
    /// against the clauses before it is handed out.
    const CHECK_RESULTS: bool;

    /// Whether the configuration keeps a debug trace where a writer is
    /// given.
    spec fn traces() -> bool;

    /// Whether a debug trace is kept where a writer is given.
    fn debug() -> (r: bool)
        ensures
            r == Self::traces(),
    ;
}

/// Decides a random literal of a random unassigned variable.
pub struct RandomConfig {}

/// As `RandomConfig`, keeping a debug trace.
pub struct RandomConfigDebug {}

/// Decides the unassigned literal of highest activity.
pub struct VsidsConfig {}

/// As `VsidsConfig`, keeping a debug trace.
pub struct VsidsConfigDebug {}

/// As `VsidsConfig`, with the sets of the solver kept in ordered trees.
pub struct VsidsTreeConfig {}

impl ConfigT for VsidsTreeConfig {
    type BitSet = BTreeBitSet;

    const CHECK_RESULTS: bool = false;

    fn choose_literal(state: &mut Engine<BTreeBitSet>) -> (r: Option<Literal>) {
        state.choose_vsids_literal()
    }

    fn debug() -> (r: bool) {
        false
    }

    open spec fn traces() -> bool {
        false
    }
}

impl ConfigT for RandomConfig {
    type BitSet = DefaultBitSet;

    const CHECK_RESULTS: bool = false;

    fn choose_literal(state: &mut Engine<DefaultBitSet>) -> (r: Option<Literal>) {
        state.choose_random_literal()
    }

    fn debug() -> (r: bool) {
        false
    }

    open spec fn traces() -> bool {
        false
    }
}

impl ConfigT for RandomConfigDebug {
    type BitSet = DefaultBitSet;

    const CHECK_RESULTS: bool = true;

    fn choose_literal(state: &mut Engine<DefaultBitSet>) -> (r: Option<Literal>) {
        state.choose_random_literal()
    }

    fn debug() -> (r: bool) {
        true
    }

    open spec fn traces() -> bool {
        true
    }
}

impl ConfigT for VsidsConfig {
    type BitSet = DefaultBitSet;

    const CHECK_RESULTS: bool = false;

    fn choose_literal(state: &mut Engine<DefaultBitSet>) -> (r: Option<Literal>) {
        state.choose_vsids_literal()
    }

    fn debug() -> (r: bool) {
        false
    }

    open spec fn traces() -> bool {
        false
    }
}

impl ConfigT for VsidsConfigDebug {
    type BitSet = DefaultBitSet;

    const CHECK_RESULTS: bool = true;

    fn choose_literal(state: &mut Engine<DefaultBitSet>) -> (r: Option<Literal>) {
        state.choose_vsids_literal()
    }

    fn debug() -> (r: bool) {
        true
    }

    open spec fn traces() -> bool {
        true
    }
}

/// A solver for one formula, which may grow by further clauses.
pub struct State<Config: ConfigT> {
    engine: Engine<Config::BitSet>,
    config: PhantomData<Config>,
    given: Vec<Vec<isize>>,
}

/// The number of steps after which a run leaves the search by clause
/// learning and decides the formula by enumeration.
pub const STEP_LIMIT: u64 = 0xffff_ffff_ffff_ffff;

/// Whether the clauses `g` stand for the formula `f`: their literals are
/// non-zero numbers that can be negated, their variables are variables
/// of `f`, and they are true under exactly the assignments under which
/// `f` is.
#[verifier::opaque]
pub open spec fn mirrors(g: Seq<Seq<isize>>, f: Seq<Seq<isize>>) -> bool {
    &&& formula_ok(g)
    &&& formula_vars(g).subset_of(formula_vars(f))
    &&& forall|m: Set<nat>| #[trigger] formula_holds(m, g) == formula_holds(m, f)
}

/// Clauses that stand for a formula stand, with one more clause, for the
/// formula with that clause.
pub proof fn lemma_mirrors_push(g: Seq<Seq<isize>>, f: Seq<Seq<isize>>, c: Seq<isize>)
    requires
        mirrors(g, f),
        clause_ok(c),
    ensures
        mirrors(g.push(c), f.push(c)),
{
    reveal(mirrors);
    let g2 = g.push(c);
    let f2 = f.push(c);
    assert forall|i: int| 0 <= i < g2.len() implies clause_ok(#[trigger] g2[i]) by {
        if i < g.len() {
            assert(g2[i] == g[i]);
        }
    }
    crate::sat::lemma_formula_vars_push(g, c);
    crate::sat::lemma_formula_vars_push(f, c);
    assert forall|m: Set<nat>| #[trigger] formula_holds(m, g2) == formula_holds(m, f2) by {
        crate::sat::lemma_formula_push(g, c, m);
        crate::sat::lemma_formula_push(f, c, m);
        assert(formula_holds(m, g) == formula_holds(m, f));
    }
}

/// The clauses of a formula that was taken in, as lists of their
/// literals, stand for the formula.
pub proof fn lemma_mirrors_lists<B: BitSetT>(formula: Formula<B>, lists: Seq<Seq<isize>>)
    requires
        formula.wf(),
        lists.len() == formula.clauses@.len(),
        forall|k: int|
            0 <= k < lists.len() ==> formula.clauses@[k].same_lits(#[trigger] lists[k]) && clause_ok(
                lists[k],
            ),
    ensures
        mirrors(lists, formula.source@),
{
    reveal(mirrors);
    let f = formula.source@;
    let ks = crate::sat::kept(f);
    assert forall|v: nat| formula_vars(lists).contains(v) implies formula_vars(f).contains(v) by {
        let i = choose|i: int|
            0 <= i < lists.len() && crate::sat::clause_vars(#[trigger] lists[i]).contains(v);
        crate::sat::lemma_same_lits_vars(formula.clauses@[i], lists[i]);
        assert(formula.clauses@[i].variables@.contains(v));
    }
    assert forall|m: Set<nat>| #[trigger] formula_holds(m, lists) == formula_holds(m, f) by {
        crate::sat::lemma_kept_equivalent(f, m);
        assert forall|k: int| 0 <= k < lists.len() implies crate::sat::clause_holds(
            m,
            #[trigger] lists[k],
        ) == crate::sat::clause_holds(m, ks[k]) by {
            crate::trail::lemma_same_lits_holds(formula.clauses@[k], lists[k], m);
            crate::trail::lemma_same_lits_holds(formula.clauses@[k], ks[k], m);
        }
        if formula_holds(m, lists) {
            assert forall|k: int| 0 <= k < ks.len() implies crate::sat::clause_holds(
                m,
                #[trigger] ks[k],
            ) by {
                assert(crate::sat::clause_holds(m, lists[k]));
            }
        }
        if formula_holds(m, ks) {
            assert forall|k: int| 0 <= k < lists.len() implies crate::sat::clause_holds(
                m,
                #[trigger] lists[k],
            ) by {
                assert(crate::sat::clause_holds(m, ks[k]));
            }
        }
    }
}

/// The formula `f` with the first `n` of the assumptions added, each as
/// a clause of one literal.
pub open spec fn with_units(f: Seq<Seq<isize>>, assumptions: Seq<isize>, n: int) -> Seq<Seq<isize>>
    decreases n,
{
    if n <= 0 {
        f
    } else {
        with_units(f, assumptions, n - 1).push(seq![assumptions[n - 1]])
    }
}

/// A formula with assumptions added as clauses can be taken in where the
/// formula and the assumptions can.
pub proof fn lemma_with_units(f: Seq<Seq<isize>>, assumptions: Seq<isize>, n: int)
    requires
        formula_ok(f),
        clause_ok(assumptions),
        0 <= n <= assumptions.len(),
    ensures
        formula_ok(with_units(f, assumptions, n)),
    decreases n,
{
    if n > 0 {
        lemma_with_units(f, assumptions, n - 1);
        let g = with_units(f, assumptions, n - 1);
        let h = with_units(f, assumptions, n);
        assert forall|i: int| 0 <= i < h.len() implies clause_ok(#[trigger] h[i]) by {
            if i < g.len() {
                assert(h[i] == g[i]);
            }
        }
    }
}

/// A formula with assumptions added as clauses is true exactly where the
/// formula is and every one of those assumptions holds.
pub proof fn lemma_units_hold(f: Seq<Seq<isize>>, assumptions: Seq<isize>, n: int, m: Set<nat>)
    requires
        0 <= n <= assumptions.len(),
    ensures
        formula_holds(m, with_units(f, assumptions, n)) == (formula_holds(m, f) && forall|j: int|
            0 <= j < n ==> lit_holds(m, #[trigger] assumptions[j] as int)),
    decreases n,
{
    if n > 0 {
        lemma_units_hold(f, assumptions, n - 1, m);
        let c = seq![assumptions[n - 1]];
        crate::sat::lemma_formula_push(with_units(f, assumptions, n - 1), c, m);
        assert(crate::sat::clause_holds(m, c) == lit_holds(m, assumptions[n - 1] as int)) by {
            if crate::sat::clause_holds(m, c) {
                let j = choose|j: int| 0 <= j < c.len() && lit_holds(m, #[trigger] c[j] as int);
                assert(j == 0);
            }
            if lit_holds(m, assumptions[n - 1] as int) {
                assert(lit_holds(m, c[0] as int));
            }
        }
    }
}

/// Every assumption added as a clause brings its variable.
pub proof fn lemma_units_vars_in(f: Seq<Seq<isize>>, assumptions: Seq<isize>, n: int)
    requires
        0 <= n <= assumptions.len(),
    ensures
        forall|j: int|
            0 <= j < n ==> formula_vars(with_units(f, assumptions, n)).contains(
                lit_var(#[trigger] assumptions[j] as int),
            ),
    decreases n,
{
    if n > 0 {
        lemma_units_vars_in(f, assumptions, n - 1);
        let c = seq![assumptions[n - 1]];
        crate::sat::lemma_formula_vars_push(with_units(f, assumptions, n - 1), c);
        assert(crate::sat::clause_vars(c).contains(lit_var(c[0] as int)));
    }
}

/// The variables of a formula with assumptions added as clauses are
/// those of the formula and of those assumptions.
pub proof fn lemma_units_vars(f: Seq<Seq<isize>>, assumptions: Seq<isize>, n: int)
    requires
        0 <= n <= assumptions.len(),
    ensures
        forall|v: nat|
            formula_vars(with_units(f, assumptions, n)).contains(v) ==> formula_vars(f).contains(v)
                || crate::sat::clause_vars(assumptions).contains(v),
        forall|v: nat|
            formula_vars(f).contains(v) ==> formula_vars(with_units(f, assumptions, n)).contains(v),
    decreases n,
{
    if n > 0 {
        lemma_units_vars(f, assumptions, n - 1);
        let c = seq![assumptions[n - 1]];
        crate::sat::lemma_formula_vars_push(with_units(f, assumptions, n - 1), c);
        assert forall|v: nat| crate::sat::clause_vars(c).contains(v) implies crate::sat::clause_vars(
            assumptions,
        ).contains(v) by {
            let j = choose|j: int| 0 <= j < c.len() && lit_var(#[trigger] c[j] as int) == v;
            assert(lit_var(assumptions[n - 1] as int) == v);
        }
    }
}

impl<Config: ConfigT> State<Config> {
    /// The invariant of the solver.
    pub closed spec fn wf(&self) -> bool {
        self.engine.wf() && mirrors(self.given.deep_view(), self.engine.formula())
    }

    /// The formula of the solver: every clause given so far.
    pub closed spec fn formula(&self) -> Seq<Seq<isize>> {
        self.engine.formula()
    }

    /// The level of the newest trail entry, or zero on an empty trail.
    pub closed spec fn level(&self) -> nat {
        self.engine.level()
    }

    /// Whether every clause given to the solver found room in its clause
    /// table.
    pub closed spec fn complete(&self) -> bool {
        !self.engine.is_exhausted()
    }

    /// Whether the solver is marked as having no model: a clause without
    /// literals was taken in.
    pub closed spec fn refuted(&self) -> bool {
        self.engine.refuted()
    }

    /// A solver that found room for every clause given to it, one of
    /// them without literals, is marked as having no model.
    pub proof fn lemma_empty_refuted(&self)
        requires
            self.wf(),
            has_empty(self.formula()),
            self.complete(),
        ensures
            self.refuted(),
    {
        self.engine.lemma_empty_refuted();
    }

    /// The formula of a solver that is marked as having no model has
    /// none.
    pub proof fn lemma_refuted_unsat(&self)
        requires
            self.wf(),
            self.refuted(),
        ensures
            crate::sat::unsatisfiable(self.formula()),
    {
        self.engine.lemma_refuted_unsat();
    }

    /// Whether the assignment is read off the trail: no variable is
    /// unassigned, and every variable that the trail gives a value has
    /// that value in the assignment.
    pub closed spec fn read_off(&self, a: Map<usize, bool>) -> bool {
        self.engine.read_off(a)
    }

    /// Whether no clause is in the ready set.
    pub closed spec fn idle(&self) -> bool {
        self.engine.ready_empty()
    }

    /// Whether the variable `v` takes part in the search and has no
    /// value.
    pub closed spec fn unassigned(&self, v: nat) -> bool {
        self.engine.unassigned(v)
    }

    /// Whether the trail is that of `before` with entries added at its
    /// end.
    pub closed spec fn grew_from(&self, before: Self) -> bool {
        self.engine.grew_from(before.engine)
    }

    /// Whether the trail is that of `before`.
    pub closed spec fn trail_kept(&self, before: Self) -> bool {
        self.engine.trail_kept(before.engine)
    }

    /// Whether the trail is that of `before` with entries taken off its
    /// end.
    pub closed spec fn cut_from(&self, before: Self) -> bool {
        self.engine.cut_from(before.engine)
    }

    /// Whether the trail is that of `before` with the literal `l` decided
    /// at the next level as its newest entry.
    pub closed spec fn decided_from(&self, before: Self, l: int) -> bool {
        self.engine.decided_from(before.engine, l)
    }

    /// What a grown, a kept, a cut and a decided trail are as lists of
    /// literals.
    pub proof fn lemma_trail_change(&self, before: Self, l: int)
        ensures
            self.grew_from(before) ==> before.trail_literals().len() < self.trail_literals().len()
                && self.trail_literals().take(before.trail_literals().len() as int)
                == before.trail_literals(),
            self.trail_kept(before) ==> self.trail_literals() == before.trail_literals(),
            self.cut_from(before) ==> self.trail_literals().len() < before.trail_literals().len()
                && before.trail_literals().take(self.trail_literals().len() as int)
                == self.trail_literals(),
            self.decided_from(before, l) ==> self.trail_literals() == before.trail_literals().push(l)
                && self.entry_reason(before.trail_literals().len() as int) is None
                && self.entry_level(before.trail_literals().len() as int) == before.level() + 1,
    {
        self.engine.lemma_trail_change(before.engine, l);
    }

    /// The override as a number, where it is given, is not zero and is
    /// of an unassigned variable.
    pub open spec fn usable(&self, literal_override: Option<Literal>) -> Option<int> {
        match literal_override {
            Some(o) => if o.as_int() != 0 && self.unassigned(lit_var(o.as_int())) {
                Some(o.as_int())
            } else {
                None
            },
            None => None,
        }
    }

    /// Whether the search is as a conflict leaves it: a clause derived
    /// from it stands ready; or the clause table had no room for it; or
    /// the search has started over with an empty trail.
    pub closed spec fn resumed(&self) -> bool {
        self.engine.resumed()
    }

    /// What a step that does not end the search does. After a conflict
    /// it takes entries off the end of the trail, and leaves the search
    /// resumed where the conflict came of forcing literals. Where
    /// nothing was ready, it decides a literal: the override where that
    /// is given, not zero and of an unassigned variable. Where clauses
    /// were ready, it drains the ready set and adds what they force to
    /// the end of the trail.
    pub open spec fn advanced(&self, before: Self, literal_override: Option<Literal>) -> bool {
        ||| (self.cut_from(before) && (before.idle() || self.resumed()))
        ||| (before.idle() && exists|l: int| #[trigger]
            self.decided_from(before, l) && l != 0 && before.unassigned(lit_var(l)) && (
            before.usable(literal_override) is Some ==> l == before.usable(
                literal_override,
            ).unwrap()))
        ||| (!before.idle() && self.idle() && (self.grew_from(before) || self.trail_kept(before)))
    }

    /// The watched-literals invariant: a watched literal that is false
    /// has its clause satisfied by a literal assigned no later, or ready
    /// at the current level.
    pub closed spec fn watched(&self) -> bool {
        self.engine.settled()
    }

    /// Whether every stored clause has its watched literals: the
    /// invariant holds again once the search starts over.
    pub closed spec fn watchable(&self) -> bool {
        self.engine.paired()
    }

    /// Where the invariant holds, every stored clause has its watched
    /// literals.
    pub proof fn lemma_watched_watchable(&self)
        requires
            self.wf(),
            self.watched(),
        ensures
            self.watchable(),
    {
        self.engine.lemma_settled_paired();
    }

    /// The clause stored in slot `k` of the clause table, if one is
    /// stored there.
    pub closed spec fn stored(&self, k: int) -> Option<Shape> {
        self.engine.stored(k)
    }

    /// Whether the watch index lists the clause in slot `k` under the
    /// literal `l`.
    pub closed spec fn watched_by(&self, l: int, k: int) -> bool {
        self.engine.watched_by(l, k)
    }

    /// Whether the clause in slot `k` is in the ready set.
    pub closed spec fn is_ready(&self, k: int) -> bool {
        self.engine.is_ready(k)
    }

    /// The value that the trail gives the variable `v`, if it gives one.
    pub closed spec fn value_on_trail(&self, v: nat) -> Option<bool> {
        self.engine.value_on_trail(v)
    }

    /// Where the watched-literals invariant holds, every stored clause
    /// that no literal on the trail makes true is in the ready set or is
    /// watched by two of its literals that are not false: the pair
    /// returned, both unassigned.
    pub proof fn lemma_watched(&self, k: int) -> (pair: (int, int))
        requires
            self.wf(),
            self.watched(),
            self.stored(k) is Some,
            !self.is_ready(k),
            forall|l: int|
                lit_in(self.stored(k).unwrap().vars, self.stored(k).unwrap().negs, l)
                    ==> self.value_on_trail(lit_var(l)) != Some(l > 0),
        ensures
            pair.0 != pair.1,
            lit_in(self.stored(k).unwrap().vars, self.stored(k).unwrap().negs, pair.0),
            lit_in(self.stored(k).unwrap().vars, self.stored(k).unwrap().negs, pair.1),
            self.watched_by(pair.0, k),
            self.watched_by(pair.1, k),
            self.value_on_trail(lit_var(pair.0)) is None,
            self.value_on_trail(lit_var(pair.1)) is None,
    {
        self.engine.lemma_two_watchers(k)
    }

    /// The literals on the trail, oldest first.
    pub closed spec fn trail_literals(&self) -> Seq<int> {
        self.engine.trail_literals()
    }

    /// The level of the trail entry at position `i`, or zero before the
    /// start of the trail.
    pub closed spec fn entry_level(&self, i: int) -> int {
        self.engine.entry_level(i)
    }

    /// The slot of the clause that forced the trail entry at position
    /// `i`, or nothing where the entry was decided.
    pub closed spec fn entry_reason(&self, i: int) -> Option<int> {
        self.engine.entry_reason(i)
    }

    /// Every trail entry is a decision that opens the level above the
    /// one before it, or stays at the level before it and was forced by
    /// a stored clause: its literal is one of that clause, and the
    /// negation of `l`, any other literal of the clause, stands on the
    /// trail before it, at the position returned.
    pub proof fn lemma_trail_entry(&self, i: int, l: int) -> (j: int)
        requires
            self.wf(),
            0 <= i < self.trail_literals().len(),
        ensures
            match self.entry_reason(i) {
                None => self.entry_level(i) == self.entry_level(i - 1) + 1,
                Some(k) => {
                    &&& self.entry_level(i) == self.entry_level(i - 1)
                    &&& self.stored(k) is Some
                    &&& lit_in(
                        self.stored(k).unwrap().vars,
                        self.stored(k).unwrap().negs,
                        self.trail_literals()[i],
                    )
                    &&& lit_in(self.stored(k).unwrap().vars, self.stored(k).unwrap().negs, l) && l
                        != self.trail_literals()[i] ==> 0 <= j < i && self.trail_literals()[j] == -l
                },
            },
    {
        self.engine.lemma_trail_entry(i, l)
    }

    /// The trail gives the variable of each of its literals the value
    /// that makes the literal true, and that variable is not unassigned.
    pub proof fn lemma_trail_polarity(&self, i: int)
        requires
            self.wf(),
            0 <= i < self.trail_literals().len(),
        ensures
            self.trail_literals()[i] != 0,
            self.value_on_trail(lit_var(self.trail_literals()[i])) == Some(
                self.trail_literals()[i] > 0,
            ),
            !self.unassigned(lit_var(self.trail_literals()[i])),
    {
        self.engine.lemma_trail_polarity(i);
    }

    /// The trail never holds two entries of one variable.
    pub proof fn lemma_trail_distinct(&self, i: int, j: int)
        requires
            self.wf(),
            0 <= i < j < self.trail_literals().len(),
        ensures
            lit_var(self.trail_literals()[i]) != lit_var(self.trail_literals()[j]),
    {
        self.engine.lemma_trail_distinct(i, j);
    }

    /// Picks the literal to decide next and decides it: the given one
    /// where its variable is unassigned, else the one that the branching
    /// heuristic chooses. Where no variable is left to decide the search
    /// is closed with its answer.
    fn make_decision(&mut self, literal_override: Option<Literal>) -> (r: StepResult)
        requires
            old(self).wf(),
        ensures
            final(self).wf(),
            final(self).formula() == old(self).formula(),
            match r {
                StepResult::Done(res) => res.correct_for(final(self).formula()),
                StepResult::Continue => true,
            },
            old(self).engine.settled() && old(self).engine.ready_empty() ==> r == StepResult::Done(
                SatResult::Unsat,
            ) || final(self).engine.settled(),
            old(self).watchable() ==> final(self).watchable(),
            final(self).complete() == old(self).complete(),
            match r {
                StepResult::Done(SatResult::Sat(a)) => old(self).complete() ==> final(self).read_off(
                    a@,
                ),
                _ => true,
            },
            r is Continue ==> final(self).engine.fell_from(old(self).engine) || exists|l: int| #[trigger]
                final(self).decided_from(*old(self), l) && l != 0 && old(self).unassigned(
                    lit_var(l),
                ) && (old(self).usable(literal_override) is Some ==> l == old(self).usable(
                    literal_override,
                ).unwrap()),
    {
        let given: Option<Literal> = match literal_override {
            Some(l) => if l.to_isize() != 0 && self.engine.is_unassigned(l.variable()) {
                Some(l)
            } else {
                None
            },
            None => None,
        };
        let ghost first = self.engine;
        let chosen: Option<Literal> = match given {
            Some(l) => Some(l),
            None => Config::choose_literal(&mut self.engine),
        };
        let ghost mid = self.engine;
        match chosen {
            None => if self.engine.lacks_clauses() {
                StepResult::Done(self.enumerate())
            } else {
                let r = self.engine.conclude();
                proof {
                    first.lemma_same_self();
                    self.engine.lemma_same_search(mid, first, 0);
                }
                r
            },
            Some(literal) => {
                let r = self.engine.react(Action::Continue(literal));
                proof {
                    first.lemma_same_self();
                    self.engine.lemma_same_search(mid, first, literal.as_int());
                    self.engine.lemma_unassigned_same(mid, first, lit_var(literal.as_int()));
                    assert(self.decided_from(*old(self), literal.as_int()));
                }
                r
            },
        }
    }

    /// Advances the search by one step: literals are forced as far as
    /// clauses are ready; a conflict met on the way is reacted to; and
    /// where nothing was ready a literal is decided, `literal_override`
    /// where it is given and its variable is unassigned.
    pub fn step(&mut self, literal_override: Option<Literal>) -> (r: StepResult)
        requires
            old(self).wf(),
        ensures
            final(self).wf(),
            final(self).formula() == old(self).formula(),
            match r {
                StepResult::Done(res) => res.correct_for(final(self).formula()),
                StepResult::Continue => true,
            },
            old(self).watched() ==> r == StepResult::Done(SatResult::Unsat) || final(self).watched(),
            old(self).watchable() ==> final(self).watchable(),
            r is Continue ==> final(self).advanced(*old(self), literal_override),
            old(self).refuted() ==> r == StepResult::Done(SatResult::Unsat),
            old(self).refuted() ==> final(self).refuted(),
            final(self).complete() == old(self).complete(),
            match r {
                StepResult::Done(SatResult::Sat(a)) => old(self).complete() ==> final(self).read_off(
                    a@,
                ),
                _ => true,
            },
    {
        let ghost first = self.engine;
        self.engine.tick();
        let ghost ticked = self.engine;
        if self.engine.known_unsat() {
            return StepResult::Done(SatResult::Unsat);
        }
        match self.engine.unit_propagate() {
            UnitPropagationResult::NothingToPropagate => {
                let ghost before = self.engine;
                let ghost was = *self;
                let r = self.make_decision(literal_override);
                proof {
                    if r is Continue {
                        ticked.lemma_same_search(ticked, first, 0);
                        if self.engine.fell_from(before) {
                            self.engine.lemma_fell_cut(before, ticked);
                            self.engine.lemma_same_search(ticked, first, 0);
                        } else {
                            let l = choose|l: int| #[trigger]
                                self.decided_from(was, l) && l != 0 && was.unassigned(lit_var(l))
                                    && (was.usable(literal_override) is Some ==> l == was.usable(
                                    literal_override,
                                ).unwrap());
                            self.engine.lemma_same_search(before, ticked, l);
                            self.engine.lemma_same_search(ticked, first, l);
                            before.lemma_unassigned_same(before, ticked, lit_var(l));
                            ticked.lemma_unassigned_same(ticked, first, lit_var(l));
                            if literal_override is Some {
                                let o = literal_override.unwrap().as_int();
                                before.lemma_unassigned_same(before, ticked, lit_var(o));
                                ticked.lemma_unassigned_same(ticked, first, lit_var(o));
                            }
                            assert(self.decided_from(*old(self), l));
                        }
                    }
                }
                r
            },
            UnitPropagationResult::FinishedUnitPropagation => {
                proof {
                    self.engine.lemma_same_search(ticked, first, 0);
                }
                StepResult::Continue
            },
            UnitPropagationResult::Contradiction(idx) => {
                let ghost grown = self.engine;
                let r = self.engine.react(Action::Contradiction(idx));
                proof {
                    if r is Continue {
                        self.engine.lemma_fell_cut(grown, ticked);
                        self.engine.lemma_same_search(ticked, first, 0);
                    }
                }
                r
            },
        }
    }

    /// Whether the assignment makes the clause true.
    fn satisfies(model: &BTreeMap<usize, bool>, c: &Vec<isize>) -> (r: bool)
        requires
            clause_ok(c@),
        ensures
            r == crate::sat::clause_holds(model_of(model@), c@),
    {
        let mut j: usize = 0;
        while j < c.len()
            invariant
                j <= c@.len(),
                clause_ok(c@),
                forall|t: int| 0 <= t < j ==> !lit_holds(model_of(model@), #[trigger] c@[t] as int),
            decreases c@.len() - j,
        {
            let l: isize = c[j];
            let v: usize = if l < 0 {
                (-l) as usize
            } else {
                l as usize
            };
            let value: bool = match model.get(&v) {
                Some(b) => *b,
                None => false,
            };
            if value == (l > 0) {
                assert(lit_holds(model_of(model@), c@[j as int] as int));
                return true;
            }
            j = j + 1;
        }
        false
    }

    /// Checks a reported assignment against every clause; a report that
    /// there is no assignment has nothing to check.
    fn confirms(&self, res: &SatResult) -> (r: bool)
        requires
            self.wf(),
        ensures
            r == match *res {
                SatResult::Sat(a) => formula_holds(model_of(a@), self.given.deep_view()),
                SatResult::Unsat => true,
            },
    {
        match res {
            SatResult::Unsat => true,
            SatResult::Sat(a) => {
                proof {
                    reveal(mirrors);
                }
                let mut i: usize = 0;
                while i < self.given.len()
                    invariant
                        i <= self.given@.len(),
                        *res == SatResult::Sat(*a),
                        formula_ok(self.given.deep_view()),
                        forall|t: int|
                            0 <= t < i ==> crate::sat::clause_holds(
                                model_of(a@),
                                #[trigger] self.given.deep_view()[t],
                            ),
                    decreases self.given@.len() - i,
                {
                    proof {
                        assert(self.given.deep_view()[i as int] == self.given@[i as int]@);
                        assert(clause_ok(self.given.deep_view()[i as int]));
                    }
                    if !Self::satisfies(a, &self.given[i]) {
                        proof {
                            let g = self.given.deep_view();
                            assert(g.len() == self.given@.len());
                            assert(!crate::sat::clause_holds(model_of(a@), g[i as int]));
                            assert(!formula_holds(model_of(a@), g));
                        }
                        return false;
                    }
                    i = i + 1;
                }
                assert(self.given.deep_view().len() == self.given@.len());
                true
            },
        }
    }

    /// Decides the formula by enumeration of the assignments of its
    /// variables.
    fn enumerate(&self) -> (r: SatResult)
        requires
            self.wf(),
        ensures
            r.correct_for(self.formula()),
    {
        let top: usize = self.engine.table_size();
        proof {
            reveal(mirrors);
            self.engine.lemma_variables_in_range();
            let g = self.given.deep_view();
            assert forall|i: int| 0 <= i < g.len() implies crate::exhaustive::clause_within(
                #[trigger] g[i],
                top as nat,
            ) by {
                assert forall|j: int| 0 <= j < g[i].len() implies #[trigger] g[i][j] != 0 && g[i][j]
                    > isize::MIN && lit_var(g[i][j] as int) < top by {
                    assert(clause_ok(g[i]));
                    assert(crate::sat::clause_vars(g[i]).contains(lit_var(g[i][j] as int)));
                    assert(formula_vars(g).contains(lit_var(g[i][j] as int)));
                }
            }
        }
        match crate::exhaustive::decide(&self.given, top) {
            None => {
                proof {
                    reveal(mirrors);
                    assert forall|m: Set<nat>| !formula_holds(m, self.formula()) by {
                        assert(formula_holds(m, self.given.deep_view()) == formula_holds(
                            m,
                            self.formula(),
                        ));
                    }
                }
                SatResult::Unsat
            },
            Some(values) => {
                let a = self.engine.model_from(&values);
                proof {
                    reveal(mirrors);
                    let g = self.given.deep_view();
                    let tried = crate::exhaustive::assigns(values@);
                    assert forall|v: nat| formula_vars(g).contains(v) implies tried.contains(v)
                        == model_of(a@).contains(v) by {
                        assert(formula_vars(self.formula()).contains(v));
                        assert(v < top);
                        assert(a@.contains_key(v as usize));
                    }
                    crate::exhaustive::lemma_same_on_vars(g, tried, model_of(a@));
                    assert(formula_holds(model_of(a@), g) == formula_holds(
                        model_of(a@),
                        self.formula(),
                    ));
                }
                SatResult::Sat(a)
            },
        }
    }

    /// Steps until the search is done; after `STEP_LIMIT` steps the
    /// formula is decided by enumeration.
    fn run_inner(&mut self) -> (r: SatResult)
        requires
            old(self).wf(),
        ensures
            final(self).wf(),
            final(self).formula() == old(self).formula(),
            r.correct_for(final(self).formula()),
            old(self).watched() ==> r == SatResult::Unsat || final(self).watched(),
            old(self).watchable() ==> final(self).watchable(),
    {
        let mut fuel: u64 = STEP_LIMIT;
        while fuel > 0
            invariant
                self.wf(),
                self.formula() == old(self).formula(),
                old(self).watched() ==> self.watched(),
                old(self).watchable() ==> self.watchable(),
            decreases fuel,
        {
            match self.step(None) {
                StepResult::Done(res) => {
                    if Config::CHECK_RESULTS {
                        let sound: bool = self.confirms(&res);
                        assert(sound) by {
                            reveal(mirrors);
                        }
                    }
                    return res;
                },
                StepResult::Continue => {},
            }
            fuel = fuel - 1;
        }
        self.enumerate()
    }

    /// Searches from an empty trail for an assignment that makes every
    /// clause of the formula true.
    pub fn run(&mut self) -> (r: SatResult)
        requires
            old(self).wf(),
        ensures
            final(self).wf(),
            final(self).formula() == old(self).formula(),
            r.correct_for(final(self).formula()),
            old(self).watchable() ==> r == SatResult::Unsat || final(self).watched(),
            old(self).watchable() ==> final(self).watchable(),
    {
        self.engine.restart();
        self.run_inner()
    }

    /// Forces what is ready; a conflict met on the way ends the search
    /// under the assumptions.
    fn stabilize_assumption(&mut self) -> (r: Option<usize>)
        requires
            old(self).wf(),
        ensures
            final(self).wf(),
            final(self).formula() == old(self).formula(),
            final(self).engine.decisions() == old(self).engine.decisions(),
            match r {
                Some(c) => final(self).engine.conflicting(c),
                None => final(self).engine.ready_empty() && (!old(self).watched() || final(self).watched()),
            },
            old(self).watchable() ==> final(self).watchable(),
    {
        match self.engine.unit_propagate() {
            UnitPropagationResult::Contradiction(idx) => Some(idx),
            UnitPropagationResult::NothingToPropagate
            | UnitPropagationResult::FinishedUnitPropagation => None,
        }
    }

    /// Searches from an empty trail with each assumption decided in
    /// turn, each at a level of its own, forcing what follows after each.
    /// An assumption that the trail already makes true is passed over;
    /// one that it makes false, or a conflict while the assumptions are
    /// laid down, ends the search with the report that no model agrees
    /// with the assumptions. An assumption on a variable that takes no
    /// part in the search is passed over.
    pub fn run_with_assumptions(&mut self, assumptions: &[isize]) -> (r: SatResult)
        requires
            old(self).wf(),
            clause_ok(assumptions@),
        ensures
            final(self).wf(),
            final(self).formula() == old(self).formula(),
            r.correct_under(final(self).formula(), assumptions@),
            old(self).watchable() ==> r == SatResult::Unsat || final(self).watched(),
            old(self).watchable() ==> final(self).watchable(),
    {
        self.engine.restart();
        match self.stabilize_assumption() {
            Some(c) => {
                proof {
                    self.lemma_refuted(c, assumptions@);
                }
                return SatResult::Unsat;
            },
            None => {},
        }
        let mut i: usize = 0;
        while i < assumptions.len()
            invariant
                i <= assumptions@.len(),
                clause_ok(assumptions@),
                self.wf(),
                self.formula() == old(self).formula(),
                self.engine.ready_empty(),
                old(self).watchable() ==> self.watched(),
                old(self).watchable() ==> self.watchable(),
                forall|l: int|
                    self.engine.decisions().contains(l) ==> exists|j: int|
                        0 <= j < assumptions@.len() && #[trigger] assumptions@[j] as int == l,
            decreases assumptions@.len() - i,
        {
            let lit_val: isize = assumptions[i];
            i = i + 1;
            let value: bool = lit_val > 0;
            let var: usize = if lit_val < 0 {
                (-lit_val) as usize
            } else {
                lit_val as usize
            };
            match self.engine.value_of(var) {
                Some(current) => {
                    if current != value {
                        proof {
                            assert forall|m: Set<nat>|
                                formula_holds(m, self.formula()) implies exists|j: int|
                                0 <= j < assumptions@.len() && !lit_holds(
                                    m,
                                    #[trigger] assumptions@[j] as int,
                                ) by {
                                self.lemma_denied(var as nat, i - 1, assumptions@, m);
                            }
                        }
                        return SatResult::Unsat;
                    }
                },
                None => {
                    if self.engine.is_unassigned(var) {
                        let lit = Literal::new(var, value);
                        assert(assumptions@[i - 1] as int == lit.as_int());
                        self.engine.decide(lit);
                        match self.stabilize_assumption() {
                            Some(c) => {
                                proof {
                                    self.lemma_refuted(c, assumptions@);
                                }
                                return SatResult::Unsat;
                            },
                            None => {},
                        }
                    }
                },
            }
        }
        let res = self.run_inner();
        self.settle_under(res, assumptions)
    }

    /// Whether the assignment makes every assumption true.
    fn model_agrees(a: &BTreeMap<usize, bool>, assumptions: &[isize]) -> (r: bool)
        requires
            clause_ok(assumptions@),
        ensures
            r == forall|j: int|
                0 <= j < assumptions@.len() ==> lit_holds(
                    model_of(a@),
                    #[trigger] assumptions@[j] as int,
                ),
    {
        let mut i: usize = 0;
        while i < assumptions.len()
            invariant
                i <= assumptions@.len(),
                clause_ok(assumptions@),
                forall|j: int|
                    0 <= j < i ==> lit_holds(model_of(a@), #[trigger] assumptions@[j] as int),
            decreases assumptions@.len() - i,
        {
            let l: isize = assumptions[i];
            let v: usize = if l < 0 {
                (-l) as usize
            } else {
                l as usize
            };
            let value: bool = match a.get(&v) {
                Some(b) => *b,
                None => false,
            };
            if value != (l > 0) {
                assert(!lit_holds(model_of(a@), assumptions@[i as int] as int));
                return false;
            }
            i = i + 1;
        }
        true
    }

    /// The assignment with every assumed variable that it lacks added as
    /// false, which leaves the assignment that it stands for as it is.
    fn with_assumed(model: BTreeMap<usize, bool>, assumptions: &[isize]) -> (r: BTreeMap<
        usize,
        bool,
    >)
        requires
            clause_ok(assumptions@),
        ensures
            model_of(r@) == model_of(model@),
            forall|v: usize|
                r@.contains_key(v) == (model@.contains_key(v) || crate::sat::clause_vars(
                    assumptions@,
                ).contains(v as nat)),
    {
        let mut out = model;
        let mut i: usize = 0;
        while i < assumptions.len()
            invariant
                i <= assumptions@.len(),
                clause_ok(assumptions@),
                model_of(out@) == model_of(model@),
                forall|v: usize|
                    out@.contains_key(v) == (model@.contains_key(v) || exists|j: int|
                        0 <= j < i && lit_var(#[trigger] assumptions@[j] as int) == v),
            decreases assumptions@.len() - i,
        {
            let l: isize = assumptions[i];
            let var: usize = if l < 0 {
                (-l) as usize
            } else {
                l as usize
            };
            let ghost before = out@;
            if !out.contains_key(&var) {
                out.insert(var, false);
                proof {
                    assert(model_of(out@) =~= model_of(before));
                }
            }
            i = i + 1;
            proof {
                assert forall|v: usize| out@.contains_key(v) == (model@.contains_key(v) || exists|
                    j: int,
                | 0 <= j < i && lit_var(#[trigger] assumptions@[j] as int) == v) by {
                    if v == var {
                        assert(lit_var(assumptions@[i - 1] as int) == v);
                    } else if exists|j: int|
                        0 <= j < i && lit_var(#[trigger] assumptions@[j] as int) == v {
                        let j = choose|j: int|
                            0 <= j < i && lit_var(#[trigger] assumptions@[j] as int) == v;
                        assert(j < i - 1);
                    }
                }
            }
        }
        proof {
            assert forall|v: usize| out@.contains_key(v) == (model@.contains_key(v)
                || crate::sat::clause_vars(assumptions@).contains(v as nat)) by {
                if crate::sat::clause_vars(assumptions@).contains(v as nat) {
                    let j = choose|j: int|
                        0 <= j < assumptions@.len() && lit_var(#[trigger] assumptions@[j] as int)
                            == v as nat;
                    assert(lit_var(assumptions@[j] as int) == v);
                }
            }
        }
        out
    }

    /// The answer under the assumptions, from the answer that the search
    /// gave for the formula: a model that makes every assumption true
    /// stands; where it does not, the formula is decided anew together
    /// with the assumptions as clauses of one literal.
    fn settle_under(&self, res: SatResult, assumptions: &[isize]) -> (r: SatResult)
        requires
            self.wf(),
            clause_ok(assumptions@),
            res.correct_for(self.formula()),
        ensures
            r.correct_under(self.formula(), assumptions@),
    {
        match res {
            SatResult::Unsat => SatResult::Unsat,
            SatResult::Sat(a) => {
                if Self::model_agrees(&a, assumptions) {
                    SatResult::Sat(Self::with_assumed(a, assumptions))
                } else {
                    self.decide_under(assumptions)
                }
            },
        }
    }

    /// Decides the formula together with the assumptions as clauses of
    /// one literal, by a solver made for them.
    fn decide_under(&self, assumptions: &[isize]) -> (r: SatResult)
        requires
            self.wf(),
            clause_ok(assumptions@),
        ensures
            r.correct_under(self.formula(), assumptions@),
    {
        let mut g: Vec<Vec<isize>> = Vec::new();
        let mut k: usize = 0;
        while k < self.given.len()
            invariant
                k <= self.given@.len(),
                g@.len() == k,
                forall|t: int| 0 <= t < k ==> (#[trigger] g@[t])@ == self.given@[t]@,
            decreases self.given@.len() - k,
        {
            let c: Vec<isize> = self.given[k].clone();
            assert(c@ =~= self.given@[k as int]@);
            g.push(c);
            k = k + 1;
        }
        let ghost base = self.given.deep_view();
        proof {
            assert(g.deep_view() =~= base) by {
                assert forall|t: int| 0 <= t < base.len() implies g.deep_view()[t] == base[t] by {
                    assert(g.deep_view()[t] == g@[t]@);
                    assert(base[t] == self.given@[t]@);
                }
            }
        }
        let mut i: usize = 0;
        while i < assumptions.len()
            invariant
                i <= assumptions@.len(),
                g.deep_view() == with_units(base, assumptions@, i as int),
            decreases assumptions@.len() - i,
        {
            let ghost before = g.deep_view();
            let ghost lists = g@;
            let mut unit: Vec<isize> = Vec::new();
            unit.push(assumptions[i]);
            g.push(unit);
            proof {
                let after = g.deep_view();
                let want = before.push(seq![assumptions@[i as int]]);
                assert(after.len() == want.len());
                assert forall|t: int| 0 <= t < after.len() implies after[t] == want[t] by {
                    assert(after[t] == g@[t]@);
                    if t < before.len() {
                        assert(before[t] == lists[t]@);
                        assert(g@[t] == lists[t]);
                    } else {
                        assert(g@[t]@ =~= seq![assumptions@[i as int]]);
                    }
                }
                assert(after =~= want);
            }
            i = i + 1;
        }
        proof {
            reveal(mirrors);
            lemma_with_units(base, assumptions@, assumptions@.len() as int);
        }
        let ghost whole = g.deep_view();
        let res = Self::solve(g);
        match res {
            SatResult::Unsat => {
                proof {
                    reveal(mirrors);
                    assert forall|m: Set<nat>| formula_holds(m, self.formula()) implies exists|j: int|
                        0 <= j < assumptions@.len() && !lit_holds(
                            m,
                            #[trigger] assumptions@[j] as int,
                        ) by {
                        assert(formula_holds(m, base) == formula_holds(m, self.formula()));
                        lemma_units_hold(base, assumptions@, assumptions@.len() as int, m);
                    }
                }
                SatResult::Unsat
            },
            SatResult::Sat(b) => {
                let a = self.engine.filled(b);
                proof {
                    reveal(mirrors);
                    let m = model_of(a@);
                    assert(m =~= model_of(b@));
                    lemma_units_vars_in(base, assumptions@, assumptions@.len() as int);
                    lemma_units_hold(base, assumptions@, assumptions@.len() as int, m);
                    assert(formula_holds(m, base) == formula_holds(m, self.formula()));
                    lemma_units_vars(base, assumptions@, assumptions@.len() as int);
                }
                SatResult::Sat(a)
            },
        }
    }

    /// A conflict while only assumptions are decided: no model of the
    /// formula makes every assumption true.
    proof fn lemma_refuted(&self, c: usize, assumptions: Seq<isize>)
        requires
            self.wf(),
            self.engine.conflicting(c),
            forall|l: int|
                self.engine.decisions().contains(l) ==> exists|j: int|
                    0 <= j < assumptions.len() && #[trigger] assumptions[j] as int == l,
        ensures
            (SatResult::Unsat).correct_under(self.formula(), assumptions),
    {
        assert forall|m: Set<nat>| formula_holds(m, self.formula()) implies exists|j: int|
            0 <= j < assumptions.len() && !lit_holds(m, #[trigger] assumptions[j] as int) by {
            self.engine.lemma_conflict(c, m);
            let l = choose|l: int| self.engine.decisions().contains(l) && !lit_holds(m, l);
            let j = choose|j: int| 0 <= j < assumptions.len() && #[trigger] assumptions[j] as int == l;
            assert(!lit_holds(m, assumptions[j] as int));
        }
    }

    /// An assumption that the trail makes false while only assumptions
    /// are decided: a model of the formula goes against some assumption.
    proof fn lemma_denied(&self, var: nat, at: int, assumptions: Seq<isize>, m: Set<nat>)
        requires
            self.wf(),
            0 <= at < assumptions.len(),
            assumptions[at] != 0,
            var == lit_var(assumptions[at] as int),
            self.engine.value_on_trail(var) is Some,
            self.engine.value_on_trail(var).unwrap() != (assumptions[at] > 0),
            formula_holds(m, self.formula()),
            forall|l: int|
                self.engine.decisions().contains(l) ==> exists|j: int|
                    0 <= j < assumptions.len() && #[trigger] assumptions[j] as int == l,
        ensures
            exists|j: int| 0 <= j < assumptions.len() && !lit_holds(m, #[trigger] assumptions[j] as int),
    {
        if forall|l: int| self.engine.decisions().contains(l) ==> lit_holds(m, l) {
            self.engine.lemma_trail_value(var, m);
            assert(!lit_holds(m, assumptions[at] as int));
        } else {
            let l = choose|l: int| self.engine.decisions().contains(l) && !lit_holds(m, l);
            let j = choose|j: int| 0 <= j < assumptions.len() && #[trigger] assumptions[j] as int == l;
            assert(!lit_holds(m, assumptions[j] as int));
        }
    }

    /// Adds a clause to the formula; the next run takes it into account.
    pub fn add_clause(&mut self, literals: Vec<isize>)
        requires
            old(self).wf(),
            clause_ok(literals@),
        ensures
            final(self).wf(),
            final(self).formula() == old(self).formula().push(literals@),
            final(self).trail_literals().len() == 0,
            old(self).watched() && literals@.len() > 0 ==> final(self).watched(),
            old(self).watchable() && literals@.len() > 0 ==> final(self).watchable(),
            old(self).refuted() ==> final(self).refuted(),
    {
        let copy: Vec<isize> = literals.clone();
        let ghost g0 = self.given.deep_view();
        let ghost f0 = self.engine.formula();
        self.given.push(copy);
        proof {
            assert(copy@ =~= literals@);
            let g1 = self.given.deep_view();
            assert(g1.len() == g0.len() + 1);
            assert forall|i: int| 0 <= i < g1.len() implies g1[i] == g0.push(literals@)[i] by {
                assert(g1[i] == self.given@[i]@);
                if i < g0.len() {
                    assert(g0[i] == old(self).given@[i]@);
                }
            }
            assert(g1 =~= g0.push(literals@));
            lemma_mirrors_push(g0, f0, literals@);
        }
        self.engine.add_clause(literals);
    }

    /// A solver for the formula that takes its sets from the pool and
    /// keeps a debug trace in the writer, where one is given and the
    /// configuration asks for a trace.
    pub fn new_with_pool_and_debug_writer(
        formula: Formula<Config::BitSet>,
        bitset_pool: Pool<Config::BitSet>,
        debug_writer: Option<String>,
    ) -> (r: Self)
        requires
            formula.wf(),
            pool_wf(bitset_pool),
        ensures
            r.wf(),
            r.formula() == formula.source@,
            r.trail_literals().len() == 0,
            !has_empty(formula.source@) ==> r.watched(),
            formula.source@.len() < MAX_CLAUSES ==> r.complete(),
            has_empty(formula.source@) && r.complete() ==> r.refuted(),
            grown(
                if Config::traces() {
                    text_of(debug_writer)
                } else {
                    None
                },
                r.trace(),
            ),
    {
        let writer: Option<String> = if Config::debug() {
            debug_writer
        } else {
            None
        };
        let given: Vec<Vec<isize>> = formula.literal_lists();
        proof {
            let lists = given.deep_view();
            assert forall|k: int| 0 <= k < lists.len() implies formula.clauses@[k].same_lits(
                #[trigger] lists[k],
            ) && clause_ok(lists[k]) by {
                assert(lists[k] == given@[k]@);
            }
            lemma_mirrors_lists(formula, lists);
        }
        let r = State { engine: Engine::new(formula, bitset_pool, writer), config: PhantomData, given };
        proof {
            if has_empty(r.formula()) && r.complete() {
                r.engine.lemma_empty_refuted();
            }
        }
        r
    }

    /// A solver for the formula that keeps a debug trace in the writer.
    pub fn new_with_debug_writer(formula: Formula<Config::BitSet>, debug_writer: Option<String>) -> (r: Self)
        requires
            formula.wf(),
        ensures
            r.wf(),
            r.formula() == formula.source@,
            r.trail_literals().len() == 0,
            !has_empty(formula.source@) ==> r.watched(),
            formula.source@.len() < MAX_CLAUSES ==> r.complete(),
            has_empty(formula.source@) && r.complete() ==> r.refuted(),
            grown(
                if Config::traces() {
                    text_of(debug_writer)
                } else {
                    None
                },
                r.trace(),
            ),
    {
        Self::new_with_pool_and_debug_writer(formula, Pool::new(), debug_writer)
    }

    /// A solver for the formula.
    pub fn new(formula: Formula<Config::BitSet>) -> (r: Self)
        requires
            formula.wf(),
        ensures
            r.wf(),
            r.formula() == formula.source@,
            r.trail_literals().len() == 0,
            !has_empty(formula.source@) ==> r.watched(),
            formula.source@.len() < MAX_CLAUSES ==> r.complete(),
            has_empty(formula.source@) && r.complete() ==> r.refuted(),
            r.trace() is None,
    {
        Self::new_with_debug_writer(formula, None)
    }

    /// A solver for the clauses given.
    pub fn create(formula: Vec<Vec<isize>>) -> (r: Self)
        requires
            formula_ok(formula.deep_view()),
        ensures
            r.wf(),
            r.formula() == formula.deep_view(),
            r.trail_literals().len() == 0,
            !has_empty(formula.deep_view()) ==> r.watched(),
            formula.deep_view().len() < MAX_CLAUSES ==> r.complete(),
            has_empty(formula.deep_view()) && r.complete() ==> r.refuted(),
            r.trace() is None,
    {
        Self::new_from_vec(formula)
    }

    /// A solver for the clauses given.
    pub fn new_from_vec(formula: Vec<Vec<isize>>) -> (r: Self)
        requires
            formula_ok(formula.deep_view()),
        ensures
            r.wf(),
            r.formula() == formula.deep_view(),
            r.trail_literals().len() == 0,
            !has_empty(formula.deep_view()) ==> r.watched(),
            formula.deep_view().len() < MAX_CLAUSES ==> r.complete(),
            has_empty(formula.deep_view()) && r.complete() ==> r.refuted(),
            r.trace() is None,
    {
        Self::new_from_vec_with_debug_writer(formula, None)
    }

    /// A solver for the clauses given that keeps a debug trace in the
    /// writer.
    pub fn new_from_vec_with_debug_writer(
        formula: Vec<Vec<isize>>,
        debug_writer: Option<String>,
    ) -> (r: Self)
        requires
            formula_ok(formula.deep_view()),
        ensures
            r.wf(),
            r.formula() == formula.deep_view(),
            r.trail_literals().len() == 0,
            !has_empty(formula.deep_view()) ==> r.watched(),
            formula.deep_view().len() < MAX_CLAUSES ==> r.complete(),
            has_empty(formula.deep_view()) && r.complete() ==> r.refuted(),
            grown(
                if Config::traces() {
                    text_of(debug_writer)
                } else {
                    None
                },
                r.trace(),
            ),
    {
        let mut bitset_pool: Pool<Config::BitSet> = Pool::new();
        let formula = Formula::new(formula, &mut bitset_pool);
        Self::new_with_pool_and_debug_writer(formula, bitset_pool, debug_writer)
    }

    /// Solves the clauses given under the assumptions and hands the
    /// debug trace back.
    pub fn solve_with_debug_writer_and_assumptions(
        formula: Vec<Vec<isize>>,
        assumptions: &[isize],
        debug_writer: Option<String>,
    ) -> (r: (SatResult, Option<String>))
        requires
            formula_ok(formula.deep_view()),
            clause_ok(assumptions@),
        ensures
            r.0.correct_under(formula.deep_view(), assumptions@),
    {
        let mut state = Self::new_from_vec_with_debug_writer(formula, debug_writer);
        let res = state.run_with_assumptions(assumptions);
        (res, state.engine.into_trace())
    }

    /// Solves the clauses given under the assumptions.
    pub fn solve_with_assumptions(formula: Vec<Vec<isize>>, assumptions: &[isize]) -> (r: SatResult)
        requires
            formula_ok(formula.deep_view()),
            clause_ok(assumptions@),
        ensures
            r.correct_under(formula.deep_view(), assumptions@),
    {
        Self::solve_with_debug_writer_and_assumptions(formula, assumptions, None).0
    }

    /// Solves the clauses given and hands the debug trace back.
    pub fn solve_with_debug_writer(formula: Vec<Vec<isize>>, debug_writer: Option<String>) -> (r: (
        SatResult,
        Option<String>,
    ))
        requires
            formula_ok(formula.deep_view()),
        ensures
            r.0.correct_for(formula.deep_view()),
    {
        let mut state = Self::new_from_vec_with_debug_writer(formula, debug_writer);
        let res = state.run_inner();
        (res, state.engine.into_trace())
    }

    /// Solves the clauses given: a reported assignment makes each of
    /// them true, and a report of none means that no assignment does.
    pub fn solve(formula: Vec<Vec<isize>>) -> (r: SatResult)
        requires
            formula_ok(formula.deep_view()),
        ensures
            r.correct_for(formula.deep_view()),
    {
        Self::solve_with_debug_writer(formula, None).0
    }

    /// The text of the debug trace written so far, if one is kept.
    pub closed spec fn trace(&self) -> Option<Seq<char>> {
        self.engine.trace()
    }

    /// The debug trace written so far, if one is kept.
    pub fn debug_trace(&self) -> (r: Option<String>)
        ensures
            match r {
                Some(t) => self.trace() == Some(t@),
                None => self.trace() is None,
            },
    {
        self.engine.trace_text()
    }
}

/// The solver with the activity heuristic.
pub type Default = State<VsidsConfig>;

/// The solver with the activity heuristic that keeps a debug trace.
pub type DefaultDebug = State<VsidsConfigDebug>;

} // verus!
