//! The data model of a formula in conjunctive normal form: literals,
//! clauses, formulas, assignments and what it means for one to satisfy
//! another.

use crate::bitset::BitSetT;
use crate::pool::Pool;
use std::collections::BTreeMap;
use std::collections::HashMap;
use std::collections::HashSet;
use vstd::prelude::*;
use vstd::std_specs::iter::IteratorSpec;

verus! {

/// The variable of the literal `l`.
pub open spec fn lit_var(l: int) -> nat {
    if l < 0 {
        (-l) as nat
    } else {
        l as nat
    }
}

/// Whether the literal `l` is true where exactly the variables in `m`
/// are true.
pub open spec fn lit_holds(m: Set<nat>, l: int) -> bool {
    l != 0 && (m.contains(lit_var(l)) == (l > 0))
}

/// Whether some literal of the clause `c` is true under `m`.
pub open spec fn clause_holds(m: Set<nat>, c: Seq<isize>) -> bool {
    exists|j: int| 0 <= j < c.len() && lit_holds(m, #[trigger] c[j] as int)
}

/// Whether every clause of `f` is true under `m`.
pub open spec fn formula_holds(m: Set<nat>, f: Seq<Seq<isize>>) -> bool {
    forall|i: int| 0 <= i < f.len() ==> clause_holds(m, #[trigger] f[i])
}

/// Whether no assignment makes every clause of `f` true.
pub open spec fn unsatisfiable(f: Seq<Seq<isize>>) -> bool {
    forall|m: Set<nat>| !formula_holds(m, f)
}

/// Whether the clause holds a variable in both polarities.
pub open spec fn tautology(c: Seq<isize>) -> bool {
    exists|i: int, j: int|
        0 <= i < c.len() && 0 <= j < c.len() && #[trigger] c[i] as int == -(#[trigger] c[j] as int)
}

/// The variables that occur in the clause.
pub open spec fn clause_vars(c: Seq<isize>) -> Set<nat> {
    Set::new(|v: nat| exists|j: int| 0 <= j < c.len() && lit_var(#[trigger] c[j] as int) == v)
}

/// The variables that occur in the formula.
pub open spec fn formula_vars(f: Seq<Seq<isize>>) -> Set<nat> {
    Set::new(|v: nat| exists|i: int| 0 <= i < f.len() && clause_vars(#[trigger] f[i]).contains(v))
}

/// Whether the clause can be taken in: no literal is zero and each has a
/// negation.
pub open spec fn clause_ok(c: Seq<isize>) -> bool {
    forall|j: int| 0 <= j < c.len() ==> #[trigger] c[j] != 0 && c[j] > isize::MIN
}

/// Whether every clause of the formula can be taken in.
pub open spec fn formula_ok(f: Seq<Seq<isize>>) -> bool {
    forall|i: int| 0 <= i < f.len() ==> clause_ok(#[trigger] f[i])
}

/// Whether the literal `l` is one of a clause whose variables are `vs`,
/// those in `ns` negated.
pub open spec fn lit_in(vs: Set<nat>, ns: Set<nat>, l: int) -> bool {
    l != 0 && vs.contains(lit_var(l)) && (ns.contains(lit_var(l)) == (l < 0))
}

/// Whether the literal `l` is among the first `n` of `c`.
pub open spec fn occurs(c: Seq<isize>, n: int, l: int) -> bool {
    exists|t: int| 0 <= t < n && #[trigger] c[t] as int == l
}

/// The assignment that a map from variables to truth values stands for.
pub open spec fn model_of(a: Map<usize, bool>) -> Set<nat> {
    Set::new(|v: nat| v <= usize::MAX && a.contains_key(v as usize) && a[v as usize])
}

/// The outcome of a search.
#[derive(Debug)]
pub enum SatResult {
    /// A satisfying assignment over the variables of the formula.
    Sat(BTreeMap<usize, bool>),
    /// No assignment satisfies the formula.
    Unsat,
}

/// The outcome of one step of the search.
#[derive(Debug)]
pub enum StepResult {
    Done(SatResult),
    Continue,
}

impl SatResult {
    /// Whether the outcome is right for the formula `f`: a reported
    /// assignment makes every clause true, and a report of none means
    /// that there is none.
    pub open spec fn correct_for(&self, f: Seq<Seq<isize>>) -> bool {
        match *self {
            SatResult::Sat(a) => formula_holds(model_of(a@), f) && forall|v: usize|
                a@.contains_key(v) == formula_vars(f).contains(v as nat),
            SatResult::Unsat => unsatisfiable(f),
        }
    }

    /// Whether the outcome is right for the formula `f` searched under
    /// the assumptions: a reported assignment makes every clause and
    /// every assumption true, and gives a value to exactly the variables
    /// of the formula and of the assumptions; a report of none means
    /// that no model of the formula makes every assumption true.
    pub open spec fn correct_under(&self, f: Seq<Seq<isize>>, assumptions: Seq<isize>) -> bool {
        match *self {
            SatResult::Sat(a) => {
                &&& formula_holds(model_of(a@), f)
                &&& forall|j: int|
                    0 <= j < assumptions.len() ==> lit_holds(
                        model_of(a@),
                        #[trigger] assumptions[j] as int,
                    )
                &&& forall|v: usize|
                    a@.contains_key(v) == (formula_vars(f).contains(v as nat) || clause_vars(
                        assumptions,
                    ).contains(v as nat))
            },
            SatResult::Unsat => forall|m: Set<nat>|
                formula_holds(m, f) ==> exists|j: int|
                    0 <= j < assumptions.len() && !lit_holds(m, #[trigger] assumptions[j] as int),
        }
    }
}

/// Two outcomes that are right for one formula give the same answer:
/// both report an assignment or both report that there is none. So a
/// solver that was given a formula clause by clause, or that has
/// answered under assumptions before, answers as a solver does that
/// was made for the whole formula.
pub proof fn lemma_outcomes_agree(f: Seq<Seq<isize>>, a: SatResult, b: SatResult)
    requires
        a.correct_for(f),
        b.correct_for(f),
    ensures
        a is Sat == b is Sat,
        a is Unsat == b is Unsat,
{
}

/// A variable together with a polarity, held as a non-zero signed number.
#[derive(Debug, Clone, PartialEq, Eq, Copy, Hash, PartialOrd, Ord)]
pub struct Literal {
    value: isize,
}

impl Literal {
    #[verifier::type_invariant]
    spec fn negatable(&self) -> bool {
        self.value > isize::MIN
    }

    /// The signed number of the literal.
    pub closed spec fn as_int(&self) -> int {
        self.value as int
    }

    /// The literal of `var` with polarity `value`.
    pub fn new(var: usize, value: bool) -> (r: Self)
        requires
            var <= isize::MAX,
        ensures
            r.as_int() == if value {
                var as int
            } else {
                -(var as int)
            },
    {
        Literal {
            value: if value {
                var as isize
            } else {
                -(var as isize)
            },
        }
    }

    /// The variable of the literal.
    pub fn variable(&self) -> (r: usize)
        ensures
            r == lit_var(self.as_int()),
            r <= isize::MAX,
    {
        proof {
            use_type_invariant(self);
        }
        if self.value < 0 {
            (-self.value) as usize
        } else {
            self.value as usize
        }
    }

    /// The polarity of the literal.
    pub fn value(&self) -> (r: bool)
        ensures
            r == (self.as_int() > 0),
    {
        self.value > 0
    }

    /// The literal of the same variable with the other polarity.
    pub fn negate(&self) -> (r: Self)
        ensures
            r.as_int() == -self.as_int(),
    {
        proof {
            use_type_invariant(self);
        }
        Literal { value: -self.value }
    }

    /// The signed number of the literal.
    pub fn to_isize(&self) -> (r: isize)
        ensures
            r == self.as_int(),
            r > isize::MIN,
    {
        proof {
            use_type_invariant(self);
        }
        self.value
    }
}

/// A disjunction of literals over distinct variables.
pub struct Clause<B: BitSetT> {
    /// The variables that occur.
    pub variables: B,
    /// Those of them that occur negated.
    pub negatives: B,
    /// Whether the clause was derived from a conflict.
    pub from_conflict: bool,
    /// The activity of the clause, in fixed point.
    pub score: u128,
    /// How many assignments on the trail the clause currently justifies.
    pub num_units: usize,
}

impl<B: BitSetT> Clause<B> {
    /// Both sets are addressable, only variables that occur are negated,
    /// and every variable is a positive number with a negation.
    pub open spec fn wf(&self) -> bool {
        &&& self.variables.wf()
        &&& self.negatives.wf()
        &&& self.negatives@.subset_of(self.variables@)
        &&& forall|v: nat| self.variables@.contains(v) ==> 1 <= v <= isize::MAX
    }

    /// Whether the literal `l` occurs in the clause.
    pub open spec fn has_lit(&self, l: int) -> bool {
        lit_in(self.variables@, self.negatives@, l)
    }

    /// Whether some literal of the clause is true under `m`.
    pub open spec fn holds(&self, m: Set<nat>) -> bool {
        exists|v: nat| #[trigger]
            self.variables@.contains(v) && (m.contains(v) != self.negatives@.contains(v))
    }

    /// Whether the clause has exactly the literals of `c`.
    pub open spec fn same_lits(&self, c: Seq<isize>) -> bool {
        forall|l: int| #[trigger] self.has_lit(l) <==> occurs(c, c.len() as int, l)
    }

    /// A clause of the given variables and negations that was not derived
    /// and has seen no activity.
    pub fn create(variables: B, negatives: B) -> (r: Self)
        ensures
            r.variables == variables,
            r.negatives == negatives,
            !r.from_conflict,
            r.score == 0,
            r.num_units == 0,
    {
        Clause { variables, negatives, from_conflict: false, score: 0, num_units: 0 }
    }

    /// Whether `on_var` occurs in both clauses with opposite polarities.
    pub fn can_resolve(&self, other: &Self, on_var: usize) -> (r: bool)
        ensures
            r == (self.variables@.contains(on_var as nat) && other.variables@.contains(
                on_var as nat,
            ) && self.negatives@.contains(on_var as nat) != other.negatives@.contains(
                on_var as nat,
            )),
    {
        self.variables.contains(on_var) && other.variables.contains(on_var)
            && self.negatives.contains(on_var) != other.negatives.contains(on_var)
    }

    /// Replaces the clause by its resolvent with `other` on `on_var`: the
    /// literals of both without those of `on_var`.
    pub fn resolve_exn(&mut self, other: &Self, on_var: usize)
        requires
            old(self).wf(),
            other.wf(),
            old(self).variables@.contains(on_var as nat),
            other.variables@.contains(on_var as nat),
            old(self).negatives@.contains(on_var as nat) != other.negatives@.contains(
                on_var as nat,
            ),
        ensures
            final(self).wf(),
            final(self).variables@ == old(self).variables@.union(other.variables@).remove(
                on_var as nat,
            ),
            final(self).negatives@ == old(self).negatives@.union(other.negatives@).remove(
                on_var as nat,
            ),
            final(self).from_conflict == old(self).from_conflict,
            final(self).score == old(self).score,
            final(self).num_units == old(self).num_units,
    {
        self.variables.union_with(&other.variables);
        self.negatives.union_with(&other.negatives);
        self.variables.clear(on_var);
        self.negatives.clear(on_var);
    }

    /// Whether `lits` holds the literals of the clause, each once, by
    /// ascending variable.
    pub open spec fn lists(&self, lits: Seq<int>) -> bool {
        &&& lits.len() == self.variables@.len()
        &&& forall|i: int, j: int|
            0 <= i < j < lits.len() ==> lit_var(#[trigger] lits[i]) < lit_var(#[trigger] lits[j])
        &&& forall|i: int| 0 <= i < lits.len() ==> self.has_lit(#[trigger] lits[i])
        &&& forall|l: int|
            self.has_lit(l) ==> exists|i: int| 0 <= i < lits.len() && #[trigger] lits[i] == l
    }

    /// The literals of the clause by ascending variable.
    pub fn iter_literals(&self) -> (r: Vec<Literal>)
        requires
            self.wf(),
        ensures
            r@.len() == self.variables@.len(),
            forall|i: int, j: int|
                0 <= i < j < r@.len() ==> lit_var(r@[i].as_int()) < lit_var(r@[j].as_int()),
            forall|i: int| 0 <= i < r@.len() ==> self.has_lit(#[trigger] r@[i].as_int()),
            forall|l: int|
                self.has_lit(l) ==> exists|i: int| 0 <= i < r@.len() && #[trigger] r@[i].as_int()
                    == l,
            self.lists(r@.map_values(|l: Literal| l.as_int())),
    {
        let vars: Vec<usize> = self.variables.iter();
        let mut out: Vec<Literal> = Vec::new();
        let mut k: usize = 0;
        proof {
            self.variables.lemma_bounded();
            lemma_listing_len(vars@, self.variables@);
        }
        while k < vars.len()
            invariant
                self.wf(),
                k <= vars@.len(),
                crate::fixed_bitset::ascending_listing(vars@, self.variables@),
                out@.len() == k,
                forall|i: int|
                    0 <= i < k ==> #[trigger] out@[i].as_int() == if self.negatives@.contains(
                        vars@[i] as nat,
                    ) {
                        -(vars@[i] as int)
                    } else {
                        vars@[i] as int
                    },
            decreases vars@.len() - k,
        {
            let v: usize = vars[k];
            assert(self.variables@.contains(vars@[k as int] as nat));
            out.push(Literal::new(v, !self.negatives.contains(v)));
            k = k + 1;
        }
        proof {
            assert forall|i: int| 0 <= i < out@.len() implies self.has_lit(
                #[trigger] out@[i].as_int(),
            ) by {
                assert(self.variables@.contains(vars@[i] as nat));
            }
            assert forall|l: int| self.has_lit(l) implies exists|i: int|
                0 <= i < out@.len() && #[trigger] out@[i].as_int() == l by {
                let i = choose|i: int| 0 <= i < vars@.len() && #[trigger] vars@[i] == lit_var(l);
                assert(out@[i].as_int() == l);
            }
            assert forall|i: int, j: int| 0 <= i < j < out@.len() implies lit_var(
                out@[i].as_int(),
            ) < lit_var(out@[j].as_int()) by {
                assert(self.variables@.contains(vars@[i] as nat));
                assert(self.variables@.contains(vars@[j] as nat));
            }
            let m = out@.map_values(|l: Literal| l.as_int());
            assert forall|i: int| 0 <= i < m.len() implies self.has_lit(#[trigger] m[i]) by {
                assert(m[i] == out@[i].as_int());
            }
            assert forall|i: int, j: int| 0 <= i < j < m.len() implies lit_var(#[trigger] m[i])
                < lit_var(#[trigger] m[j]) by {
                assert(m[i] == out@[i].as_int() && m[j] == out@[j].as_int());
            }
            assert forall|l: int| self.has_lit(l) implies exists|i: int|
                0 <= i < m.len() && #[trigger] m[i] == l by {
                let i = choose|i: int| 0 <= i < out@.len() && #[trigger] out@[i].as_int() == l;
                assert(m[i] == l);
            }
        }
        out
    }

    /// A clause with the same literals, flags and counters, built on
    /// storage taken from `pool`.
    pub fn copy(&self, pool: &mut Pool<B>) -> (r: Self)
        requires
            self.wf(),
            forall|i: int| 0 <= i < old(pool)@.len() ==> (#[trigger] old(pool)@[i]).wf(),
        ensures
            r.wf(),
            r.variables@ == self.variables@,
            r.negatives@ == self.negatives@,
            r.from_conflict == self.from_conflict,
            r.score == self.score,
            r.num_units == self.num_units,
            forall|i: int| 0 <= i < final(pool)@.len() ==> (#[trigger] final(pool)@[i]).wf(),
    {
        let mut variables = take_bitset(pool);
        let mut negatives = take_bitset(pool);
        variables.union_with(&self.variables);
        negatives.union_with(&self.negatives);
        proof {
            assert(variables@ =~= self.variables@);
            assert(negatives@ =~= self.negatives@);
        }
        Clause {
            variables,
            negatives,
            from_conflict: self.from_conflict,
            score: self.score,
            num_units: self.num_units,
        }
    }
}

/// An empty set on storage from the pool, or on fresh storage where the
/// pool has none.
pub fn take_bitset<B: BitSetT>(pool: &mut Pool<B>) -> (r: B)
    requires
        forall|i: int| 0 <= i < old(pool)@.len() ==> (#[trigger] old(pool)@[i]).wf(),
    ensures
        r.wf(),
        r@ == Set::<nat>::empty(),
        forall|i: int| 0 <= i < final(pool)@.len() ==> (#[trigger] final(pool)@[i]).wf(),
        final(pool)@ == if old(pool)@.len() > 0 {
            old(pool)@.drop_last()
        } else {
            old(pool)@
        },
{
    if pool.is_empty() {
        B::create()
    } else {
        let ghost was = pool@;
        let mut b = pool.acquire(|| B::create());
        proof {
            assert(was[was.len() - 1].wf());
        }
        b.clear_all();
        b
    }
}

/// Whether every pooled set is addressable.
pub open spec fn pool_wf<B: BitSetT>(pool: Pool<B>) -> bool {
    forall|i: int| 0 <= i < pool@.len() ==> (#[trigger] pool@[i]).wf()
}

/// Whether some clause of `f` has no literal.
pub open spec fn has_empty(f: Seq<Seq<isize>>) -> bool {
    exists|i: int| 0 <= i < f.len() && (#[trigger] f[i]).len() == 0
}

/// The clauses of `f` that are no tautologies, in their order.
pub open spec fn kept(f: Seq<Seq<isize>>) -> Seq<Seq<isize>>
    decreases f.len(),
{
    if f.len() == 0 {
        Seq::empty()
    } else if tautology(f.last()) {
        kept(f.drop_last())
    } else {
        kept(f.drop_last()).push(f.last())
    }
}

/// The numbers of the set as natural numbers.
pub open spec fn as_nats(s: Set<usize>) -> Set<nat> {
    Set::new(|v: nat| v <= usize::MAX && s.contains(v as usize))
}

/// Adds the variables of the clause to the set.
pub fn note_variables(literals: &Vec<isize>, vars: &mut HashSet<usize>)
    requires
        clause_ok(literals@),
    ensures
        as_nats(final(vars)@) == as_nats(old(vars)@).union(clause_vars(literals@)),
{
    let mut j: usize = 0;
    proof {
        assert(as_nats(vars@) =~= as_nats(old(vars)@).union(clause_vars(literals@.take(0))));
    }
    while j < literals.len()
        invariant
            j <= literals@.len(),
            clause_ok(literals@),
            as_nats(vars@) == as_nats(old(vars)@).union(clause_vars(literals@.take(j as int))),
        decreases literals@.len() - j,
    {
        let lit: isize = literals[j];
        let var: usize = if lit < 0 {
            (-lit) as usize
        } else {
            lit as usize
        };
        let ghost part = literals@.take(j as int);
        let ghost more = literals@.take(j + 1);
        let ghost was = vars@;
        let _ = vars.insert(var);
        proof {
            assert(more[j as int] == lit);
            assert(clause_vars(more) =~= clause_vars(part).insert(var as nat)) by {
                assert forall|v: nat| clause_vars(more).contains(v) implies clause_vars(
                    part,
                ).insert(var as nat).contains(v) by {
                    let t = choose|t: int| 0 <= t < more.len() && lit_var(#[trigger] more[t] as int) == v;
                    if t < j {
                        assert(lit_var(part[t] as int) == v);
                    }
                }
                assert forall|v: nat| clause_vars(part).insert(var as nat).contains(
                    v,
                ) implies clause_vars(more).contains(v) by {
                    if v == var {
                        assert(lit_var(more[j as int] as int) == v);
                    } else {
                        let t = choose|t: int|
                            0 <= t < part.len() && lit_var(#[trigger] part[t] as int) == v;
                        assert(lit_var(more[t] as int) == v);
                    }
                }
            }
            assert(as_nats(was.insert(var)) =~= as_nats(was).insert(var as nat));
        }
        j = j + 1;
    }
    proof {
        assert(literals@.take(literals@.len() as int) =~= literals@);
    }
}

/// The variables of the set as a set that the search can walk in
/// order.
pub fn ordered_variables<B: BitSetT>(vars: &HashSet<usize>) -> (r: B)
    requires
        forall|v: usize| vars@.contains(v) ==> v <= isize::MAX,
    ensures
        r.wf(),
        r@ == as_nats(vars@),
{
    let mut out = B::create();
    proof {
        vstd::std_specs::hash::axiom_spec_hash_keys_iter(vars);
    }
    let ghost keys = vars.iter().remaining().unref();
    for v in it: vars.iter()
        invariant
            out.wf(),
            it.seq().unref() == keys,
            keys.to_set() == vars@,
            forall|v: usize| vars@.contains(v) ==> v <= isize::MAX,
            forall|x: nat|
                out@.contains(x) <==> exists|t: int|
                    0 <= t < it.index() && (#[trigger] keys[t]) as nat == x,
    {
        let ghost at = it.index();
        proof {
            assert(keys[at as int] == *v);
            assert(keys.to_set().contains(keys[at as int]));
        }
        out.set(*v);
        proof {
            assert forall|x: nat|
                out@.contains(x) <==> exists|t: int|
                    0 <= t < at + 1 && (#[trigger] keys[t]) as nat == x by {
                if exists|t: int| 0 <= t < at + 1 && (#[trigger] keys[t]) as nat == x {
                    let t = choose|t: int| 0 <= t < at + 1 && (#[trigger] keys[t]) as nat == x;
                    if t < at {
                        assert(keys[t] as nat == x);
                    }
                }
                if x == *v {
                    assert(keys[at as int] as nat == x);
                }
            }
        }
    }
    proof {
        assert forall|x: nat| out@.contains(x) == as_nats(vars@).contains(x) by {
            if out@.contains(x) {
                let t = choose|t: int| 0 <= t < keys.len() && (#[trigger] keys[t]) as nat == x;
                assert(keys.to_set().contains(keys[t]));
            }
            if as_nats(vars@).contains(x) {
                assert(keys.to_set().contains(x as usize));
                let t = choose|t: int| 0 <= t < keys.len() && keys[t] == x as usize;
                assert(keys[t] as nat == x);
            }
        }
        assert(out@ =~= as_nats(vars@));
    }
    out
}

/// How often the literal `l` occurs in the clause.
pub open spec fn hits(c: Seq<isize>, l: isize) -> nat
    decreases c.len(),
{
    if c.len() == 0 {
        0
    } else {
        hits(c.drop_last(), l) + if c.last() == l {
            1nat
        } else {
            0nat
        }
    }
}

/// How often the literal `l` occurs in the clauses of the formula.
pub open spec fn tally(f: Seq<Seq<isize>>, l: isize) -> nat
    decreases f.len(),
{
    if f.len() == 0 {
        0
    } else {
        tally(f.drop_last(), l) + hits(f.last(), l)
    }
}

/// Whether the map holds, for each literal that occurs `n` times where
/// `n` is not zero, the number `n`, or the largest number that can be
/// counted where `n` is more, and holds no other literal.
pub open spec fn counted_as(counts: Map<isize, usize>, n: spec_fn(isize) -> nat) -> bool {
    forall|l: isize|
        (#[trigger] counts.contains_key(l) <==> n(l) > 0) && (counts.contains_key(l) ==> counts[l]
            == if n(l) <= usize::MAX {
            n(l)
        } else {
            usize::MAX as nat
        })
}

/// Whether the map counts the occurrences of each literal in the
/// formula.
pub open spec fn counted(counts: Map<isize, usize>, f: Seq<Seq<isize>>) -> bool {
    counted_as(counts, |l: isize| tally(f, l))
}

/// Counts how often each literal occurs in the clauses.
pub fn count_literals(formula: &Vec<Vec<isize>>) -> (r: HashMap<isize, usize>)
    ensures
        counted(r@, formula.deep_view()),
{
    let ghost f = formula.deep_view();
    let mut counts: HashMap<isize, usize> = HashMap::new();
    let mut i: usize = 0;
    proof {
        assert(f.take(0) =~= Seq::<Seq<isize>>::empty());
    }
    while i < formula.len()
        invariant
            i <= formula@.len(),
            f == formula.deep_view(),
            counted(counts@, f.take(i as int)),
        decreases formula@.len() - i,
    {
        let ghost c = f[i as int];
        let ghost done = f.take(i as int);
        proof {
            assert(formula@[i as int]@ =~= c);
            assert(c.take(0) =~= Seq::<isize>::empty());
        }
        let mut j: usize = 0;
        while j < formula[i].len()
            invariant
                i < formula@.len(),
                f == formula.deep_view(),
                c == f[i as int],
                c == formula@[i as int]@,
                done == f.take(i as int),
                j <= c.len(),
                counted_as(counts@, |l: isize| tally(done, l) + hits(c.take(j as int), l)),
            decreases c.len() - j,
        {
            let lit: isize = formula[i][j];
            let ghost was = counts@;
            let ghost part = c.take(j as int);
            let ghost more = c.take(j + 1);
            let seen: usize = match counts.get(&lit) {
                Some(n) => *n,
                None => 0,
            };
            let next: usize = if seen < usize::MAX {
                seen + 1
            } else {
                seen
            };
            counts.insert(lit, next);
            proof {
                assert(more.drop_last() =~= part);
                assert(more.last() == lit);
                assert forall|l: isize|
                    (#[trigger] counts@.contains_key(l) <==> tally(done, l) + hits(more, l) > 0) && (
                    counts@.contains_key(l) ==> counts@[l] == if tally(done, l) + hits(more, l)
                        <= usize::MAX {
                        tally(done, l) + hits(more, l)
                    } else {
                        usize::MAX as nat
                    }) by {
                    assert(was.contains_key(l) <==> tally(done, l) + hits(part, l) > 0);
                }
            }
            j = j + 1;
        }
        proof {
            let after = f.take(i + 1);
            assert(after.drop_last() =~= done);
            assert(after.last() == c);
            assert(c.take(c.len() as int) =~= c);
            assert forall|l: isize|
                (#[trigger] counts@.contains_key(l) <==> tally(after, l) > 0) && (
                counts@.contains_key(l) ==> counts@[l] == if tally(after, l) <= usize::MAX {
                    tally(after, l)
                } else {
                    usize::MAX as nat
                }) by {
                assert(counts@.contains_key(l) <==> tally(done, l) + hits(c.take(c.len() as int), l)
                    > 0);
            }
        }
        i = i + 1;
    }
    proof {
        assert(f.take(formula@.len() as int) =~= f);
    }
    counts
}

/// Takes one clause in: records its variables in `vars`, raises
/// `max_var` to the largest of them, and returns the clause, or nothing
/// where it is a tautology.
pub fn ingest_clause<B: BitSetT>(
    literals: &Vec<isize>,
    pool: &mut Pool<B>,
    vars: &mut B,
    max_var: &mut usize,
) -> (r: Option<Clause<B>>)
    requires
        clause_ok(literals@),
        pool_wf(*old(pool)),
        old(vars).wf(),
    ensures
        pool_wf(*final(pool)),
        final(vars).wf(),
        final(vars)@ == old(vars)@.union(clause_vars(literals@)),
        *final(max_var) >= *old(max_var),
        forall|v: nat| clause_vars(literals@).contains(v) ==> v <= *final(max_var),
        *final(max_var) == *old(max_var) || clause_vars(literals@).contains(*final(max_var) as nat),
        r.is_none() == tautology(literals@),
        match r {
            Some(c) => c.wf() && c.same_lits(literals@) && !c.from_conflict && c.score == 0
                && c.num_units == 0,
            None => true,
        },
{
    let mut variables = take_bitset(pool);
    let mut negatives = take_bitset(pool);
    let mut taut: bool = false;
    let mut j: usize = 0;
    proof {
        assert(vars@ =~= old(vars)@.union(clause_vars(literals@.take(0))));
    }
    while j < literals.len()
        invariant
            j <= literals@.len(),
            clause_ok(literals@),
            pool_wf(*pool),
            vars.wf(),
            variables.wf(),
            negatives.wf(),
            negatives@.subset_of(variables@),
            forall|v: nat| variables@.contains(v) ==> 1 <= v <= isize::MAX,
            vars@ == old(vars)@.union(clause_vars(literals@.take(j as int))),
            *max_var >= *old(max_var),
            forall|v: nat| clause_vars(literals@.take(j as int)).contains(v) ==> v <= *max_var,
            *max_var == *old(max_var) || clause_vars(literals@.take(j as int)).contains(
                *max_var as nat,
            ),
            taut == tautology(literals@.take(j as int)),
            !taut ==> forall|l: int| #[trigger]
                lit_in(variables@, negatives@, l) <==> occurs(literals@, j as int, l),
        decreases literals@.len() - j,
    {
        let lit: isize = literals[j];
        let neg: bool = lit < 0;
        let var: usize = if neg {
            (-lit) as usize
        } else {
            lit as usize
        };
        let ghost before = literals@.take(j as int);
        let ghost after = literals@.take(j + 1);
        let ghost old_vs = variables@;
        let ghost old_ns = negatives@;
        proof {
            assert(after[j as int] == lit);
            assert forall|t: int| 0 <= t < j implies before[t] == after[t] by {}
            assert(clause_vars(after) =~= clause_vars(before).insert(var as nat)) by {
                assert forall|v: nat| clause_vars(after).contains(v) implies clause_vars(
                    before,
                ).insert(var as nat).contains(v) by {
                    let t = choose|t: int| 0 <= t < after.len() && lit_var(after[t] as int) == v;
                    if t < j {
                        assert(lit_var(before[t] as int) == v);
                    }
                }
                assert forall|v: nat| clause_vars(before).insert(var as nat).contains(
                    v,
                ) implies clause_vars(after).contains(v) by {
                    if v == var {
                        assert(lit_var(after[j as int] as int) == v);
                    } else {
                        let t = choose|t: int|
                            0 <= t < before.len() && lit_var(before[t] as int) == v;
                        assert(lit_var(after[t] as int) == v);
                    }
                }
            }
        }
        vars.set(var);
        if var > *max_var {
            *max_var = var;
        }
        if !taut {
            if variables.contains(var) && negatives.contains(var) != neg {
                taut = true;
                proof {
                    assert(lit_in(old_vs, old_ns, -(lit as int)));
                    assert(occurs(literals@, j as int, -(lit as int)));
                    let t = choose|t: int| 0 <= t < j && #[trigger] literals@[t] as int == -lit;
                    assert(after[t] as int == -(after[j as int] as int));
                }
            } else {
                variables.set(var);
                if neg {
                    negatives.set(var);
                }
                proof {
                    assert forall|l: int| #[trigger]
                        lit_in(variables@, negatives@, l) <==> occurs(
                            literals@,
                            j + 1,
                            l,
                        ) by {
                        if lit_in(variables@, negatives@, l) {
                            if lit_var(l) == var {
                                if l != lit {
                                    assert(l == -lit);
                                    assert(lit_in(old_vs, old_ns, l));
                                    assert(false);
                                }
                                assert(literals@[j as int] as int == l);
                            } else {
                                assert(lit_in(old_vs, old_ns, l));
                                assert(occurs(literals@, j as int, l));
                                let t = choose|t: int|
                                    0 <= t < j && #[trigger] literals@[t] as int == l;
                                assert(literals@[t] as int == l);
                            }
                        }
                        if occurs(literals@, j + 1, l) {
                            let t = choose|t: int|
                                0 <= t < j + 1 && #[trigger] literals@[t] as int == l;
                            if t < j {
                                assert(occurs(literals@, j as int, l));
                                assert(lit_in(old_vs, old_ns, l));
                            }
                        }
                    }
                    if tautology(after) {
                        let (a, b) = choose|a: int, b: int|
                            0 <= a < after.len() && 0 <= b < after.len() && #[trigger] after[a]
                                as int == -(#[trigger] after[b] as int);
                        if a < j && b < j {
                            assert(before[a] as int == -(before[b] as int));
                            assert(false);
                        } else if a == j && b == j {
                            assert(false);
                        } else {
                            let t = if a == j {
                                b
                            } else {
                                a
                            };
                            assert(literals@[t] as int == -lit);
                            assert(occurs(literals@, j as int, -(lit as int)));
                            assert(lit_in(old_vs, old_ns, -(lit as int)));
                            assert(false);
                        }
                    }
                }
            }
        } else {
            proof {
                let (a, b) = choose|a: int, b: int|
                    0 <= a < before.len() && 0 <= b < before.len() && #[trigger] before[a] as int
                        == -(#[trigger] before[b] as int);
                assert(after[a] as int == -(after[b] as int));
            }
        }
        j = j + 1;
    }
    proof {
        assert(literals@.take(literals@.len() as int) =~= literals@);
    }
    if taut {
        pool.release(variables);
        pool.release(negatives);
        None
    } else {
        let c = Clause::create(variables, negatives);
        proof {
            assert forall|l: int| #[trigger] c.has_lit(l) <==> occurs(
                literals@,
                literals@.len() as int,
                l,
            ) by {}
        }
        Some(c)
    }
}

/// A clause without literals is no tautology, so it is kept.
pub proof fn lemma_kept_empty(f: Seq<Seq<isize>>)
    ensures
        has_empty(kept(f)) == has_empty(f),
    decreases f.len(),
{
    if f.len() > 0 {
        let g = f.drop_last();
        lemma_kept_empty(g);
        lemma_empty_push(g, f.last());
        assert(f =~= g.push(f.last()));
        if !tautology(f.last()) {
            lemma_empty_push(kept(g), f.last());
        }
    }
}

/// A formula with one more clause has a clause without literals where
/// it had one before or the new clause is one.
pub proof fn lemma_empty_push(f: Seq<Seq<isize>>, c: Seq<isize>)
    ensures
        has_empty(f.push(c)) == (has_empty(f) || c.len() == 0),
{
    let g = f.push(c);
    if has_empty(f) {
        let i = choose|i: int| 0 <= i < f.len() && (#[trigger] f[i]).len() == 0;
        assert(g[i] == f[i]);
    }
    if c.len() == 0 {
        assert(g[f.len() as int] == c);
    }
    if has_empty(g) {
        let i = choose|i: int| 0 <= i < g.len() && (#[trigger] g[i]).len() == 0;
        if i < f.len() {
            assert(g[i] == f[i]);
        }
    }
}

/// No more clauses are kept than there are.
pub proof fn lemma_kept_len(f: Seq<Seq<isize>>)
    ensures
        kept(f).len() <= f.len(),
    decreases f.len(),
{
    if f.len() > 0 {
        lemma_kept_len(f.drop_last());
    }
}

/// A formula is true exactly where the clauses kept of it are: a
/// tautology is true everywhere.
pub proof fn lemma_kept_equivalent(f: Seq<Seq<isize>>, m: Set<nat>)
    requires
        formula_ok(f),
    ensures
        formula_holds(m, f) == formula_holds(m, kept(f)),
    decreases f.len(),
{
    if f.len() > 0 {
        let g = f.drop_last();
        let c = f.last();
        assert(formula_ok(g)) by {
            assert forall|i: int| 0 <= i < g.len() implies clause_ok(#[trigger] g[i]) by {
                assert(g[i] == f[i]);
            }
        }
        lemma_kept_equivalent(g, m);
        assert(formula_holds(m, f) == (formula_holds(m, g) && clause_holds(m, c))) by {
            if formula_holds(m, f) {
                assert forall|i: int| 0 <= i < g.len() implies clause_holds(m, #[trigger] g[i]) by {
                    assert(g[i] == f[i]);
                }
                assert(clause_holds(m, f[f.len() - 1]));
            }
            if formula_holds(m, g) && clause_holds(m, c) {
                assert forall|i: int| 0 <= i < f.len() implies clause_holds(m, #[trigger] f[i]) by {
                    if i < g.len() {
                        assert(g[i] == f[i]);
                    }
                }
            }
        }
        let k = kept(g);
        assert(clause_ok(f[f.len() - 1]));
        if tautology(c) {
            lemma_taut_holds(c, m);
        } else {
            let kk = k.push(c);
            assert(formula_holds(m, kk) == (formula_holds(m, k) && clause_holds(m, c))) by {
                if formula_holds(m, kk) {
                    assert forall|i: int| 0 <= i < k.len() implies clause_holds(m, #[trigger] k[i]) by {
                        assert(kk[i] == k[i]);
                    }
                    assert(clause_holds(m, kk[k.len() as int]));
                }
                if formula_holds(m, k) && clause_holds(m, c) {
                    assert forall|i: int| 0 <= i < kk.len() implies clause_holds(
                        m,
                        #[trigger] kk[i],
                    ) by {
                        if i < k.len() {
                            assert(kk[i] == k[i]);
                        }
                    }
                }
            }
        }
    }
}

/// A clause that holds a variable in both polarities is true everywhere.
pub proof fn lemma_taut_holds(c: Seq<isize>, m: Set<nat>)
    requires
        clause_ok(c),
        tautology(c),
    ensures
        clause_holds(m, c),
{
    let (i, j) = choose|i: int, j: int|
        0 <= i < c.len() && 0 <= j < c.len() && #[trigger] c[i] as int == -(#[trigger] c[j] as int);
    if lit_holds(m, c[i] as int) {
    } else {
        assert(lit_holds(m, c[j] as int));
    }
}

/// A formula with one more clause is true where the formula and the
/// clause are.
pub proof fn lemma_formula_push(f: Seq<Seq<isize>>, c: Seq<isize>, m: Set<nat>)
    ensures
        formula_holds(m, f.push(c)) == (formula_holds(m, f) && clause_holds(m, c)),
{
    let g = f.push(c);
    if formula_holds(m, g) {
        assert forall|i: int| 0 <= i < f.len() implies clause_holds(m, #[trigger] f[i]) by {
            assert(g[i] == f[i]);
        }
        assert(clause_holds(m, g[f.len() as int]));
    }
    if formula_holds(m, f) && clause_holds(m, c) {
        assert forall|i: int| 0 <= i < g.len() implies clause_holds(m, #[trigger] g[i]) by {
            if i < f.len() {
                assert(g[i] == f[i]);
            }
        }
    }
}

/// Each clause kept of an acceptable formula is one of its clauses: it
/// is acceptable, and its variables are variables of the formula.
pub proof fn lemma_kept_members(f: Seq<Seq<isize>>, k: int)
    requires
        formula_ok(f),
        0 <= k < kept(f).len(),
    ensures
        clause_ok(kept(f)[k]),
        clause_vars(kept(f)[k]).subset_of(formula_vars(f)),
        !tautology(kept(f)[k]),
        kept(f.drop_last()).len() <= kept(f).len(),
        !has_empty(f) ==> kept(f)[k].len() > 0,
    decreases f.len(),
{
    if f.len() > 0 {
        let g = f.drop_last();
        if !has_empty(f) {
            assert(f[f.len() - 1].len() > 0);
            assert forall|i: int| 0 <= i < g.len() implies (#[trigger] g[i]).len() > 0 by {
                assert(g[i] == f[i]);
            }
        }
        assert(formula_ok(g)) by {
            assert forall|i: int| 0 <= i < g.len() implies clause_ok(#[trigger] g[i]) by {
                assert(g[i] == f[i]);
            }
        }
        assert(f =~= g.push(f.last()));
        lemma_formula_vars_push(g, f.last());
        if k < kept(g).len() {
            lemma_kept_members(g, k);
        } else {
            assert(clause_ok(f[f.len() - 1]));
        }
    }
}

/// A formula taken in for solving.
pub struct Formula<B: BitSetT> {
    /// The largest variable that occurs, or zero where none does.
    pub max_var: usize,
    /// The variables that occur.
    pub vars: HashSet<usize>,
    /// The clauses that are no tautologies, in the order given.
    pub clauses: Vec<Clause<B>>,
    /// How often each literal occurs in the clauses as they were given.
    pub literal_counts: HashMap<isize, usize>,
    /// The clauses as they were given.
    pub source: Ghost<Seq<Seq<isize>>>,
}

impl<B: BitSetT> Formula<B> {
    /// The recorded variables are those of the clauses given, none
    /// exceeds the recorded maximum, and the clauses are those given that
    /// are no tautologies, each well formed and fresh.
    pub open spec fn wf(&self) -> bool {
        &&& formula_ok(self.source@)
        &&& self.max_var <= isize::MAX
        &&& as_nats(self.vars@) == formula_vars(self.source@)
        &&& forall|v: nat| formula_vars(self.source@).contains(v) ==> 1 <= v <= self.max_var
        &&& counted(self.literal_counts@, self.source@)
        &&& self.clauses@.len() == kept(self.source@).len()
        &&& forall|k: int|
            0 <= k < self.clauses@.len() ==> (#[trigger] self.clauses@[k]).wf()
                && self.clauses@[k].variables@.subset_of(formula_vars(self.source@))
                && self.clauses@[k].same_lits(
                kept(self.source@)[k],
            ) && !self.clauses@[k].from_conflict && self.clauses@[k].score == 0
                && self.clauses@[k].num_units == 0
    }

    /// The clauses as lists of signed numbers, each clause by ascending
    /// variable.
    pub fn literal_lists(&self) -> (r: Vec<Vec<isize>>)
        requires
            self.wf(),
        ensures
            r@.len() == self.clauses@.len(),
            forall|k: int|
                0 <= k < r@.len() ==> self.clauses@[k].same_lits((#[trigger] r@[k])@) && clause_ok(
                    r@[k]@,
                ),
    {
        let mut out: Vec<Vec<isize>> = Vec::new();
        let mut k: usize = 0;
        while k < self.clauses.len()
            invariant
                k <= self.clauses@.len(),
                self.wf(),
                out@.len() == k,
                forall|t: int|
                    0 <= t < k ==> self.clauses@[t].same_lits((#[trigger] out@[t])@) && clause_ok(
                        out@[t]@,
                    ),
            decreases self.clauses@.len() - k,
        {
            let lits = self.clauses[k].iter_literals();
            let mut nums: Vec<isize> = Vec::new();
            let mut i: usize = 0;
            while i < lits.len()
                invariant
                    i <= lits@.len(),
                    nums@.len() == i,
                    forall|j: int| 0 <= j < i ==> (#[trigger] nums@[j]) as int == lits@[j].as_int(),
                    forall|j: int| 0 <= j < i ==> #[trigger] nums@[j] > isize::MIN,
                decreases lits@.len() - i,
            {
                nums.push(lits[i].to_isize());
                i = i + 1;
            }
            proof {
                let c = self.clauses@[k as int];
                assert forall|l: int| #[trigger] c.has_lit(l) <==> occurs(
                    nums@,
                    nums@.len() as int,
                    l,
                ) by {
                    if c.has_lit(l) {
                        let j = choose|j: int|
                            0 <= j < lits@.len() && #[trigger] lits@[j].as_int() == l;
                        assert(nums@[j] as int == l);
                    }
                    if occurs(nums@, nums@.len() as int, l) {
                        let j = choose|j: int| 0 <= j < nums@.len() && #[trigger] nums@[j] as int == l;
                        assert(c.has_lit(lits@[j].as_int()));
                    }
                }
                assert forall|j: int| 0 <= j < nums@.len() implies #[trigger] nums@[j] != 0 by {
                    assert(c.has_lit(lits@[j].as_int()));
                }
            }
            out.push(nums);
            k = k + 1;
        }
        out
    }

    /// Takes a formula in: each clause that is no tautology becomes a
    /// clause over its distinct variables.
    pub fn new(formula: Vec<Vec<isize>>, bitset_pool: &mut Pool<B>) -> (r: Self)
        requires
            formula_ok(formula.deep_view()),
            pool_wf(*old(bitset_pool)),
        ensures
            pool_wf(*final(bitset_pool)),
            r.wf(),
            r.source@ == formula.deep_view(),
            r.max_var == 0 || r.vars@.contains(r.max_var),
    {
        let mut max_var: usize = 0;
        let mut vars = B::create();
        let mut seen: HashSet<usize> = HashSet::new();
        let mut clauses: Vec<Clause<B>> = Vec::new();
        let literal_counts = count_literals(&formula);
        let ghost f = formula.deep_view();
        let mut i: usize = 0;
        proof {
            assert(vars@ =~= formula_vars(f.take(0)));
            assert(f.take(0) =~= Seq::<Seq<isize>>::empty());
        }
        while i < formula.len()
            invariant
                i <= formula@.len(),
                f == formula.deep_view(),
                formula_ok(f),
                pool_wf(*bitset_pool),
                vars.wf(),
                max_var <= isize::MAX,
                vars@ == formula_vars(f.take(i as int)),
                as_nats(seen@) == vars@,
                forall|v: nat| vars@.contains(v) ==> 1 <= v <= max_var,
                max_var == 0 || vars@.contains(max_var as nat),
                clauses@.len() == kept(f.take(i as int)).len(),
                forall|k: int|
                    0 <= k < clauses@.len() ==> (#[trigger] clauses@[k]).wf()
                        && clauses@[k].variables@.subset_of(vars@) && clauses@[k].same_lits(
                        kept(f.take(i as int))[k],
                    ) && !clauses@[k].from_conflict && clauses@[k].score == 0
                        && clauses@[k].num_units == 0,
            decreases formula@.len() - i,
        {
            let ghost c = f[i as int];
            let ghost before = f.take(i as int);
            let ghost after = f.take(i + 1);
            let ghost old_vars = vars@;
            proof {
                assert(formula@[i as int].deep_view() == c);
                assert(formula@[i as int]@ =~= c);
                assert(clause_ok(f[i as int]));
                assert(after.drop_last() =~= before);
                assert(after.last() == c);
                lemma_formula_vars_push(before, c);
                assert(after =~= before.push(c));
            }
            let r = ingest_clause(&formula[i], bitset_pool, &mut vars, &mut max_var);
            note_variables(&formula[i], &mut seen);
            proof {
                lemma_clause_vars_range(c);
            }
            match r {
                Some(cl) => {
                    proof {
                        lemma_same_lits_vars(cl, c);
                    }
                    clauses.push(cl);
                },
                None => {},
            }
            i = i + 1;
        }
        proof {
            assert(f.take(formula@.len() as int) =~= f);
        }
        proof {
            if max_var != 0 {
                assert(as_nats(seen@).contains(max_var as nat));
            }
        }
        Formula { max_var, vars: seen, clauses, literal_counts, source: Ghost(f) }
    }
}

/// The variables of a formula with one more clause.
pub proof fn lemma_formula_vars_push(f: Seq<Seq<isize>>, c: Seq<isize>)
    ensures
        formula_vars(f.push(c)) == formula_vars(f).union(clause_vars(c)),
{
    let g = f.push(c);
    assert forall|v: nat| formula_vars(g).contains(v) implies formula_vars(f).union(
        clause_vars(c),
    ).contains(v) by {
        let i = choose|i: int| 0 <= i < g.len() && clause_vars(#[trigger] g[i]).contains(v);
        if i < f.len() {
            assert(g[i] == f[i]);
        }
    }
    assert forall|v: nat| formula_vars(f).union(clause_vars(c)).contains(v) implies formula_vars(
        g,
    ).contains(v) by {
        if clause_vars(c).contains(v) {
            assert(g[f.len() as int] == c);
        } else {
            let i = choose|i: int| 0 <= i < f.len() && clause_vars(#[trigger] f[i]).contains(v);
            assert(g[i] == f[i]);
        }
    }
    assert(formula_vars(g) =~= formula_vars(f).union(clause_vars(c)));
}

/// The variables of an acceptable clause are positive and have
/// negations.
pub proof fn lemma_clause_vars_range(c: Seq<isize>)
    requires
        clause_ok(c),
    ensures
        forall|v: nat| clause_vars(c).contains(v) ==> 1 <= v <= isize::MAX,
{
    assert forall|v: nat| clause_vars(c).contains(v) implies 1 <= v <= isize::MAX by {
        let j = choose|j: int| 0 <= j < c.len() && lit_var(#[trigger] c[j] as int) == v;
        assert(c[j] != 0);
    }
}

/// A clause with the literals of `c` has the variables of `c`.
pub proof fn lemma_same_lits_vars<B: BitSetT>(cl: Clause<B>, c: Seq<isize>)
    requires
        cl.wf(),
        cl.same_lits(c),
    ensures
        cl.variables@ == clause_vars(c),
{
    assert forall|v: nat| cl.variables@.contains(v) implies clause_vars(c).contains(v) by {
        let l: int = if cl.negatives@.contains(v) {
            -(v as int)
        } else {
            v as int
        };
        assert(cl.has_lit(l));
        let j = choose|j: int| 0 <= j < c.len() && #[trigger] c[j] as int == l;
        assert(lit_var(c[j] as int) == v);
    }
    assert forall|v: nat| clause_vars(c).contains(v) implies cl.variables@.contains(v) by {
        let j = choose|j: int| 0 <= j < c.len() && lit_var(#[trigger] c[j] as int) == v;
        assert(cl.has_lit(c[j] as int));
    }
    assert(cl.variables@ =~= clause_vars(c));
}

/// An ascending listing of a finite set is as long as the set is large.
pub proof fn lemma_listing_len(v: Seq<usize>, s: Set<nat>)
    requires
        crate::fixed_bitset::ascending_listing(v, s),
        s.finite(),
    ensures
        v.len() == s.len(),
    decreases v.len(),
{
    if v.len() == 0 {
        assert(s =~= Set::<nat>::empty());
    } else {
        let last = v.last();
        let rest = s.remove(last as nat);
        assert(s.contains(v[v.len() - 1] as nat));
        assert forall|x: nat| rest.contains(x) implies exists|i: int|
            0 <= i < v.drop_last().len() && #[trigger] v.drop_last()[i] == x by {
            let i = choose|i: int| 0 <= i < v.len() && #[trigger] v[i] == x;
            assert(v.drop_last()[i] == x);
        }
        assert forall|i: int| 0 <= i < v.drop_last().len() implies rest.contains(
            #[trigger] v.drop_last()[i] as nat,
        ) by {
            assert(s.contains(v[i] as nat));
        }
        lemma_listing_len(v.drop_last(), rest);
    }
}

} // verus!
