//! The assignment trail and the clause table as mathematical objects, and
//! the reasoning that makes the solver's answers sound: what the trail
//! holds follows from the formula and the decisions made.

use crate::sat::{clause_holds, formula_holds, lit_holds, lit_in, lit_var, occurs, Clause, Literal};
use crate::bitset::BitSetT;
use crate::tombstone::TombStone;
use vstd::prelude::*;

verus! {

/// Why a literal was put on the trail.
#[derive(Clone, Copy, Debug)]
pub enum Reason {
    /// It was chosen; the literal names the choice.
    Decision(Literal),
    /// The clause at this index had it as its only literal left.
    ClauseIdx(usize),
}

/// One assignment on the trail.
#[derive(Clone, Copy, Debug)]
pub struct TrailEntry {
    pub literal: Literal,
    pub decision_level: usize,
    pub reason: Reason,
}

/// What a clause says, apart from its storage and its counters.
pub struct Shape {
    pub vars: Set<nat>,
    pub negs: Set<nat>,
    pub learned: bool,
}

/// What the clause says.
pub open spec fn shape_of<B: BitSetT>(c: Clause<B>) -> Shape {
    Shape { vars: c.variables@, negs: c.negatives@, learned: c.from_conflict }
}

/// What each slot of the clause table says; nothing for a freed slot.
pub open spec fn shapes<B: BitSetT>(clauses: Seq<TombStone<Clause<B>>>) -> Seq<Option<Shape>> {
    Seq::new(
        clauses.len(),
        |k: int|
            if clauses[k].is_live() {
                Some(shape_of(clauses[k].live_value()))
            } else {
                None
            },
    )
}

/// Whether some literal of the clause is true under `m`.
pub open spec fn shape_holds(s: Shape, m: Set<nat>) -> bool {
    exists|v: nat| #[trigger] s.vars.contains(v) && (m.contains(v) != s.negs.contains(v))
}

/// Every stored clause is true in every model of the formula.
#[verifier::opaque]
pub open spec fn db_follows(f: Seq<Seq<isize>>, sh: Seq<Option<Shape>>) -> bool {
    forall|m: Set<nat>, k: int|
        formula_holds(m, f) && 0 <= k < sh.len() && sh[k] is Some ==> #[trigger] shape_holds(
            sh[k].unwrap(),
            m,
        )
}

/// Whether every stored clause that was not derived is true under `m`.
pub open spec fn originals_hold(sh: Seq<Option<Shape>>, m: Set<nat>) -> bool {
    forall|k: int|
        0 <= k < sh.len() && (#[trigger] sh[k]) is Some && !sh[k].unwrap().learned
            ==> shape_holds(sh[k].unwrap(), m)
}

/// Whatever makes the stored clauses that were not derived true is a
/// model of the formula.
#[verifier::opaque]
pub open spec fn db_covers(f: Seq<Seq<isize>>, sh: Seq<Option<Shape>>) -> bool {
    forall|m: Set<nat>| #[trigger] originals_hold(sh, m) ==> formula_holds(m, f)
}

/// The variable of a trail entry.
pub open spec fn entry_var(e: TrailEntry) -> nat {
    lit_var(e.literal.as_int())
}

/// The value that a trail entry gives its variable.
pub open spec fn entry_val(e: TrailEntry) -> bool {
    e.literal.as_int() > 0
}

/// The trail and the position index agree, levels never fall along the
/// trail, a decision opens a level above zero, and the current level is
/// that of the newest entry.
#[verifier::opaque]
pub open spec fn trail_ok(trail: Seq<TrailEntry>, pos: Seq<Option<usize>>, level: usize) -> bool {
    &&& trail.len() <= usize::MAX
    &&& forall|i: int|
        0 <= i < trail.len() ==> {
            let e = #[trigger] trail[i];
            &&& e.literal.as_int() != 0
            &&& entry_var(e) < pos.len()
            &&& pos[entry_var(e) as int] == Some(i as usize)
            &&& e.decision_level <= i + 1
            &&& (e.reason is Decision ==> e.decision_level >= 1 && e.reason->Decision_0
                == e.literal)
        }
    &&& forall|i: int, j: int|
        0 <= i <= j < trail.len() ==> (#[trigger] trail[i]).decision_level <= (
        #[trigger] trail[j]).decision_level
    &&& forall|v: int|
        0 <= v < pos.len() && (#[trigger] pos[v]) is Some ==> pos[v].unwrap() < trail.len()
            && entry_var(trail[pos[v].unwrap() as int]) == v
    &&& level == if trail.len() == 0 {
        0
    } else {
        trail.last().decision_level
    }
}

/// The level below the entry at position `i`: that of the entry before
/// it, or zero at the start of the trail.
pub open spec fn level_before(trail: Seq<TrailEntry>, i: int) -> int {
    if i <= 0 {
        0
    } else {
        trail[i - 1].decision_level as int
    }
}

/// Levels rise one at a time: a decision opens the level above the one
/// before it, and a forced literal stays at the level before it.
#[verifier::opaque]
pub open spec fn levels_step(trail: Seq<TrailEntry>) -> bool {
    forall|i: int|
        0 <= i < trail.len() ==> (#[trigger] trail[i]).decision_level == level_before(trail, i) + (
        if trail[i].reason is Decision {
            1int
        } else {
            0int
        })
}

/// Levels still rise one at a time where the newest entry leaves.
pub proof fn lemma_levels_pop(trail: Seq<TrailEntry>)
    requires
        levels_step(trail),
        trail.len() > 0,
    ensures
        levels_step(trail.drop_last()),
{
    reveal(levels_step);
    let t = trail.drop_last();
    assert forall|i: int| 0 <= i < t.len() implies (#[trigger] t[i]).decision_level == level_before(
        t,
        i,
    ) + (if t[i].reason is Decision {
        1int
    } else {
        0int
    }) by {
        assert(t[i] == trail[i]);
        assert(level_before(t, i) == level_before(trail, i));
    }
}

/// Levels still rise one at a time where a decision comes at the next
/// level, or a forced literal at the level of the newest entry.
pub proof fn lemma_levels_push(trail: Seq<TrailEntry>, e: TrailEntry)
    requires
        levels_step(trail),
        e.decision_level == level_before(trail, trail.len() as int) + (if e.reason is Decision {
            1int
        } else {
            0int
        }),
    ensures
        levels_step(trail.push(e)),
{
    reveal(levels_step);
    let t = trail.push(e);
    assert forall|i: int| 0 <= i < t.len() implies (#[trigger] t[i]).decision_level == level_before(
        t,
        i,
    ) + (if t[i].reason is Decision {
        1int
    } else {
        0int
    }) by {
        if i < trail.len() {
            assert(t[i] == trail[i]);
            assert(level_before(t, i) == level_before(trail, i));
        } else {
            assert(level_before(t, i) == level_before(trail, i));
        }
    }
}

/// Every level from one up to that of the newest entry is the level of
/// some entry: that at the position returned.
pub proof fn lemma_level_reached(trail: Seq<TrailEntry>, j: int) -> (i: int)
    requires
        levels_step(trail),
        trail.len() > 0,
        1 <= j <= trail.last().decision_level,
    ensures
        0 <= i < trail.len(),
        trail[i].decision_level == j,
    decreases trail.len(),
{
    let n = trail.len() - 1;
    if trail[n].decision_level == j {
        n
    } else {
        assert(trail[n].decision_level == level_before(trail, n) + (if trail[n].reason is Decision {
            1int
        } else {
            0int
        })) by {
            reveal(levels_step);
        }
        lemma_levels_pop(trail);
        let rest = trail.drop_last();
        assert(rest.last() == trail[n - 1]);
        let i = lemma_level_reached(rest, j);
        assert(rest[i] == trail[i]);
        i
    }
}

/// The literal of variable `u` in a clause with negations `negs` was made
/// false by a trail entry before position `i`.
pub open spec fn false_at(
    trail: Seq<TrailEntry>,
    pos: Seq<Option<usize>>,
    negs: Set<nat>,
    u: nat,
    i: int,
) -> bool {
    &&& u < pos.len()
    &&& pos[u as int] is Some
    &&& pos[u as int].unwrap() < i
    &&& pos[u as int].unwrap() < trail.len()
    &&& entry_val(trail[pos[u as int].unwrap() as int]) == negs.contains(u)
}

/// Every literal of the clause is false on the trail.
pub open spec fn falsified(trail: Seq<TrailEntry>, pos: Seq<Option<usize>>, s: Shape) -> bool {
    forall|u: nat| #[trigger] s.vars.contains(u) ==> false_at(trail, pos, s.negs, u, trail.len() as int)
}

/// The entry at `i`, where a clause is its reason, is a literal of that
/// clause, and the clause's other literals were false before it.
pub open spec fn reason_ok(
    trail: Seq<TrailEntry>,
    pos: Seq<Option<usize>>,
    sh: Seq<Option<Shape>>,
    i: int,
) -> bool {
    trail[i].reason is ClauseIdx ==> {
        let k = trail[i].reason->ClauseIdx_0;
        &&& k < sh.len()
        &&& sh[k as int] is Some
        &&& lit_in(sh[k as int].unwrap().vars, sh[k as int].unwrap().negs, trail[i].literal.as_int())
        &&& forall|u: nat| #[trigger]
            sh[k as int].unwrap().vars.contains(u) && u != entry_var(trail[i]) ==> false_at(
                trail,
                pos,
                sh[k as int].unwrap().negs,
                u,
                i,
            )
    }
}

/// Every entry with a clause for its reason is justified by it.
#[verifier::opaque]
pub open spec fn reasons_ok(
    trail: Seq<TrailEntry>,
    pos: Seq<Option<usize>>,
    sh: Seq<Option<Shape>>,
) -> bool {
    forall|i: int| 0 <= i < trail.len() ==> #[trigger] reason_ok(trail, pos, sh, i)
}

/// The literals on the trail that were decided.
pub open spec fn decision_lits(trail: Seq<TrailEntry>) -> Set<int> {
    Set::new(
        |l: int|
            exists|i: int|
                0 <= i < trail.len() && (#[trigger] trail[i]).reason is Decision
                    && trail[i].literal.as_int() == l,
    )
}

/// A forced entry adds no decision, and a decision adds its literal.
pub proof fn lemma_decisions_push(trail: Seq<TrailEntry>, e: TrailEntry)
    ensures
        decision_lits(trail.push(e)) == if e.reason is Decision {
            decision_lits(trail).insert(e.literal.as_int())
        } else {
            decision_lits(trail)
        },
{
    let t = trail.push(e);
    let want = if e.reason is Decision {
        decision_lits(trail).insert(e.literal.as_int())
    } else {
        decision_lits(trail)
    };
    assert forall|l: int| decision_lits(t).contains(l) implies want.contains(l) by {
        let i = choose|i: int|
            0 <= i < t.len() && (#[trigger] t[i]).reason is Decision && t[i].literal.as_int() == l;
        if i < trail.len() {
            assert(trail[i] == t[i]);
        }
    }
    assert forall|l: int| want.contains(l) implies decision_lits(t).contains(l) by {
        if decision_lits(trail).contains(l) {
            let i = choose|i: int|
                0 <= i < trail.len() && (#[trigger] trail[i]).reason is Decision
                    && trail[i].literal.as_int() == l;
            assert(t[i] == trail[i]);
        } else {
            assert(t[trail.len() as int] == e);
        }
    }
    assert(decision_lits(t) =~= want);
}

/// Taking the newest entry off adds no decision.
pub proof fn lemma_decisions_pop(trail: Seq<TrailEntry>)
    requires
        trail.len() > 0,
    ensures
        decision_lits(trail.drop_last()).subset_of(decision_lits(trail)),
{
    let t = trail.drop_last();
    assert forall|l: int| decision_lits(t).contains(l) implies decision_lits(trail).contains(l) by {
        let i = choose|i: int|
            0 <= i < t.len() && (#[trigger] t[i]).reason is Decision && t[i].literal.as_int() == l;
        assert(trail[i] == t[i]);
    }
}

/// A model that satisfies every decided literal agrees with the
/// decisions on the trail.
pub proof fn lemma_agrees_from_lits(trail: Seq<TrailEntry>, m: Set<nat>)
    requires
        forall|l: int| decision_lits(trail).contains(l) ==> lit_holds(m, l),
    ensures
        agrees_with_decisions(trail, m, trail.len() as int),
{
    assert forall|i: int| 0 <= i < trail.len() && (#[trigger] trail[i]).reason is Decision implies lit_holds(
        m,
        trail[i].literal.as_int(),
    ) by {
        assert(decision_lits(trail).contains(trail[i].literal.as_int()));
    }
}

/// Whether `m` agrees with every decision among the first `n` entries.
pub open spec fn agrees_with_decisions(trail: Seq<TrailEntry>, m: Set<nat>, n: int) -> bool {
    forall|i: int|
        0 <= i < n && (#[trigger] trail[i]).reason is Decision ==> lit_holds(
            m,
            trail[i].literal.as_int(),
        )
}

/// Whether `m` agrees with each of the first `n` entries.
pub open spec fn agrees_with_trail(trail: Seq<TrailEntry>, m: Set<nat>, n: int) -> bool {
    forall|i: int| 0 <= i < n ==> lit_holds(m, (#[trigger] trail[i]).literal.as_int())
}

/// A model of the formula that agrees with the decisions among the first
/// `n` entries agrees with all of those entries: each forced literal is
/// the one literal left of a clause that the model satisfies.
pub proof fn lemma_trail_follows(
    f: Seq<Seq<isize>>,
    sh: Seq<Option<Shape>>,
    trail: Seq<TrailEntry>,
    pos: Seq<Option<usize>>,
    level: usize,
    m: Set<nat>,
    n: int,
)
    requires
        trail_ok(trail, pos, level),
        reasons_ok(trail, pos, sh),
        db_follows(f, sh),
        formula_holds(m, f),
        0 <= n <= trail.len(),
        agrees_with_decisions(trail, m, n),
    ensures
        agrees_with_trail(trail, m, n),
    decreases n,
{
    reveal(trail_ok);
    reveal(reasons_ok);
    reveal(db_follows);
    if n > 0 {
        lemma_trail_follows(f, sh, trail, pos, level, m, n - 1);
        let e = trail[n - 1];
        if e.reason is ClauseIdx {
            let k = e.reason->ClauseIdx_0;
            assert(reason_ok(trail, pos, sh, n - 1));
            let s = sh[k as int].unwrap();
            assert(shape_holds(s, m));
            let w = choose|w: nat| #[trigger] s.vars.contains(w) && (m.contains(w) != s.negs.contains(w));
            if w != entry_var(e) {
                assert(false_at(trail, pos, s.negs, w, n - 1));
                let p = pos[w as int].unwrap() as int;
                assert(entry_var(trail[p]) == w);
                assert(lit_holds(m, trail[p].literal.as_int()));
                assert(false);
            }
        }
    }
}

/// Where every literal of a stored clause is false on the trail, each
/// model of the formula goes against one of the decisions.
pub proof fn lemma_conflict_refutes(
    f: Seq<Seq<isize>>,
    sh: Seq<Option<Shape>>,
    trail: Seq<TrailEntry>,
    pos: Seq<Option<usize>>,
    level: usize,
    k: int,
    m: Set<nat>,
)
    requires
        trail_ok(trail, pos, level),
        reasons_ok(trail, pos, sh),
        db_follows(f, sh),
        0 <= k < sh.len(),
        sh[k] is Some,
        falsified(trail, pos, sh[k].unwrap()),
        formula_holds(m, f),
    ensures
        !agrees_with_decisions(trail, m, trail.len() as int),
{
    reveal(trail_ok);
    reveal(db_follows);
    if agrees_with_decisions(trail, m, trail.len() as int) {
        lemma_trail_follows(f, sh, trail, pos, level, m, trail.len() as int);
        let s = sh[k].unwrap();
        assert(shape_holds(s, m));
        let w = choose|w: nat| #[trigger] s.vars.contains(w) && (m.contains(w) != s.negs.contains(w));
        assert(false_at(trail, pos, s.negs, w, trail.len() as int));
        let p = pos[w as int].unwrap() as int;
        assert(entry_var(trail[p]) == w);
        assert(lit_holds(m, trail[p].literal.as_int()));
        assert(false);
    }
}

/// A model of the formula agrees with every entry of level zero: below
/// the first decision nothing was decided.
pub proof fn lemma_level_zero_follows(
    f: Seq<Seq<isize>>,
    sh: Seq<Option<Shape>>,
    trail: Seq<TrailEntry>,
    pos: Seq<Option<usize>>,
    level: usize,
    m: Set<nat>,
    i: int,
)
    requires
        trail_ok(trail, pos, level),
        reasons_ok(trail, pos, sh),
        db_follows(f, sh),
        formula_holds(m, f),
        0 <= i < trail.len(),
        trail[i].decision_level == 0,
    ensures
        lit_holds(m, trail[i].literal.as_int()),
{
    assert(agrees_with_decisions(trail, m, i + 1)) by {
        reveal(trail_ok);
        assert forall|j: int| 0 <= j < i + 1 && (#[trigger] trail[j]).reason is Decision implies lit_holds(
            m,
            trail[j].literal.as_int(),
        ) by {
            assert(trail[j].decision_level <= trail[i].decision_level);
        }
    }
    lemma_trail_follows(f, sh, trail, pos, level, m, i + 1);
}

/// A clause that follows from the formula and has every literal false
/// at level zero shows that the formula has no model.
pub proof fn lemma_refuted_at_level_zero(
    f: Seq<Seq<isize>>,
    sh: Seq<Option<Shape>>,
    trail: Seq<TrailEntry>,
    pos: Seq<Option<usize>>,
    level: usize,
    s: Shape,
    m: Set<nat>,
)
    requires
        trail_ok(trail, pos, level),
        reasons_ok(trail, pos, sh),
        db_follows(f, sh),
        falsified(trail, pos, s),
        forall|u: nat| #[trigger]
            s.vars.contains(u) ==> trail[pos[u as int].unwrap() as int].decision_level == 0,
        forall|q: Set<nat>| formula_holds(q, f) ==> #[trigger] shape_holds(s, q),
    ensures
        !formula_holds(m, f),
{
    if formula_holds(m, f) {
        assert(shape_holds(s, m));
        let w = choose|w: nat| #[trigger] s.vars.contains(w) && (m.contains(w) != s.negs.contains(w));
        assert(false_at(trail, pos, s.negs, w, trail.len() as int));
        let p = pos[w as int].unwrap() as int;
        lemma_level_zero_follows(f, sh, trail, pos, level, m, p);
        assert(entry_var(trail[p]) == w) by {
            reveal(trail_ok);
        }
    }
}

/// The resolvent of two clauses on `v`: the literals of both without
/// those of `v`.
pub open spec fn resolvent(a: Shape, b: Shape, v: nat) -> Shape {
    Shape { vars: a.vars.union(b.vars).remove(v), negs: a.negs.union(b.negs).remove(v), learned: a.learned }
}

/// Two clauses that hold `v` in opposite polarities and agree on every
/// other variable they share have a resolvent that is true wherever
/// both are.
pub proof fn lemma_resolvent_holds(a: Shape, b: Shape, v: nat, m: Set<nat>)
    requires
        a.negs.subset_of(a.vars),
        b.negs.subset_of(b.vars),
        a.vars.contains(v),
        b.vars.contains(v),
        a.negs.contains(v) != b.negs.contains(v),
        forall|u: nat|
            a.vars.contains(u) && b.vars.contains(u) && u != v ==> a.negs.contains(u)
                == b.negs.contains(u),
        shape_holds(a, m),
        shape_holds(b, m),
    ensures
        shape_holds(resolvent(a, b, v), m),
{
    let r = resolvent(a, b, v);
    let x = choose|x: nat| #[trigger] a.vars.contains(x) && (m.contains(x) != a.negs.contains(x));
    let y = choose|y: nat| #[trigger] b.vars.contains(y) && (m.contains(y) != b.negs.contains(y));
    if x != v {
        assert(r.vars.contains(x));
        assert(r.negs.contains(x) == a.negs.contains(x)) by {
            if b.negs.contains(x) {
                assert(b.vars.contains(x));
            }
        }
    } else {
        assert(y != v);
        assert(r.vars.contains(y));
        assert(r.negs.contains(y) == b.negs.contains(y)) by {
            if a.negs.contains(y) {
                assert(a.vars.contains(y));
            }
        }
    }
}

/// One step of conflict analysis. Where every literal of `l` is false on
/// the trail and the entry at `i`, forced by the clause in slot `k`, is
/// of a variable of `l`, the two hold that variable in opposite
/// polarities, and their resolvent again has every literal false on the
/// trail and follows from the formula if `l` does.
pub proof fn lemma_resolve_step(
    f: Seq<Seq<isize>>,
    sh: Seq<Option<Shape>>,
    trail: Seq<TrailEntry>,
    pos: Seq<Option<usize>>,
    level: usize,
    l: Shape,
    i: int,
)
    requires
        trail_ok(trail, pos, level),
        reasons_ok(trail, pos, sh),
        db_follows(f, sh),
        0 <= i < trail.len(),
        trail[i].reason is ClauseIdx,
        l.negs.subset_of(l.vars),
        falsified(trail, pos, l),
        l.vars.contains(entry_var(trail[i])),
        sh[trail[i].reason->ClauseIdx_0 as int].unwrap().negs.subset_of(
            sh[trail[i].reason->ClauseIdx_0 as int].unwrap().vars,
        ),
        forall|m: Set<nat>| formula_holds(m, f) ==> #[trigger] shape_holds(l, m),
    ensures
        trail[i].reason->ClauseIdx_0 < sh.len(),
        sh[trail[i].reason->ClauseIdx_0 as int] is Some,
        sh[trail[i].reason->ClauseIdx_0 as int].unwrap().vars.contains(entry_var(trail[i])),
        l.negs.contains(entry_var(trail[i])) != sh[trail[i].reason->ClauseIdx_0 as int].unwrap().negs.contains(
            entry_var(trail[i]),
        ),
        falsified(
            trail,
            pos,
            resolvent(l, sh[trail[i].reason->ClauseIdx_0 as int].unwrap(), entry_var(trail[i])),
        ),
        forall|m: Set<nat>|
            formula_holds(m, f) ==> #[trigger] shape_holds(
                resolvent(l, sh[trail[i].reason->ClauseIdx_0 as int].unwrap(), entry_var(trail[i])),
                m,
            ),
{
    reveal(trail_ok);
    reveal(reasons_ok);
    reveal(db_follows);
    let k = trail[i].reason->ClauseIdx_0 as int;
    let v = entry_var(trail[i]);
    assert(reason_ok(trail, pos, sh, i));
    let r = sh[k].unwrap();
    let res = resolvent(l, r, v);
    assert(false_at(trail, pos, l.negs, v, trail.len() as int));
    assert(pos[v as int] == Some(i as usize));
    assert forall|u: nat| l.vars.contains(u) && r.vars.contains(u) && u != v implies l.negs.contains(
        u,
    ) == r.negs.contains(u) by {
        assert(false_at(trail, pos, l.negs, u, trail.len() as int));
        assert(false_at(trail, pos, r.negs, u, i));
    }
    assert forall|u: nat| #[trigger] res.vars.contains(u) implies false_at(
        trail,
        pos,
        res.negs,
        u,
        trail.len() as int,
    ) by {
        if l.vars.contains(u) {
            assert(false_at(trail, pos, l.negs, u, trail.len() as int));
            if r.negs.contains(u) {
                assert(r.vars.contains(u));
            }
        } else {
            assert(r.vars.contains(u));
            assert(false_at(trail, pos, r.negs, u, i));
            if l.negs.contains(u) {
                assert(l.vars.contains(u));
            }
        }
    }
    assert forall|m: Set<nat>| formula_holds(m, f) implies #[trigger] shape_holds(res, m) by {
        assert(shape_holds(l, m));
        assert(shape_holds(sh[k].unwrap(), m));
        lemma_resolvent_holds(l, r, v, m);
    }
}

/// A clause with the literals of `c` is true exactly where `c` is.
pub proof fn lemma_same_lits_holds<B: BitSetT>(cl: Clause<B>, c: Seq<isize>, m: Set<nat>)
    requires
        cl.wf(),
        cl.same_lits(c),
    ensures
        shape_holds(shape_of(cl), m) == clause_holds(m, c),
{
    let s = shape_of(cl);
    if shape_holds(s, m) {
        let v = choose|v: nat| #[trigger] s.vars.contains(v) && (m.contains(v) != s.negs.contains(v));
        let l: int = if s.negs.contains(v) {
            -(v as int)
        } else {
            v as int
        };
        assert(cl.has_lit(l));
        assert(occurs(c, c.len() as int, l));
        let j = choose|j: int| 0 <= j < c.len() && #[trigger] c[j] as int == l;
        assert(lit_holds(m, c[j] as int));
    }
    if clause_holds(m, c) {
        let j = choose|j: int| 0 <= j < c.len() && lit_holds(m, #[trigger] c[j] as int);
        let l = c[j] as int;
        assert(occurs(c, c.len() as int, l));
        assert(cl.has_lit(l));
        assert(s.vars.contains(lit_var(l)));
    }
}

} // verus!
