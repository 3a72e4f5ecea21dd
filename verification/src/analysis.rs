//! Conflict analysis: why the clause derived from a conflict comes out
//! with exactly one literal of the current level.

use crate::engine::{level_of, next_below, vars_at_level};
use crate::trail::{
    entry_var, false_at, falsified, levels_step, resolvent, trail_ok, Shape, TrailEntry,
};
use vstd::prelude::*;

verus! {

/// Whether some variable of `vars` was assigned at `level`.
pub open spec fn has_top(
    vars: Set<nat>,
    t: Seq<TrailEntry>,
    p: Seq<Option<usize>>,
    level: usize,
) -> bool {
    exists|u: nat| #[trigger] vars.contains(u) && level_of(t, p, u) == Some(level)
}

/// Whether every variable of `vars` that was assigned at `level` has its
/// trail entry before position `i`.
pub open spec fn tops_before(
    vars: Set<nat>,
    t: Seq<TrailEntry>,
    p: Seq<Option<usize>>,
    level: usize,
    i: int,
) -> bool {
    forall|u: nat| #[trigger]
        vars.contains(u) && level_of(t, p, u) == Some(level) ==> p[u as int].unwrap() < i
}

/// A finite set with a variable of the level, but not exactly one, has
/// two of them.
pub proof fn lemma_two_tops(
    vars: Set<nat>,
    t: Seq<TrailEntry>,
    p: Seq<Option<usize>>,
    level: usize,
) -> (r: (nat, nat))
    requires
        vars.finite(),
        has_top(vars, t, p, level),
        vars_at_level(vars, t, p, level).len() != 1,
    ensures
        r.0 != r.1,
        vars.contains(r.0),
        vars.contains(r.1),
        level_of(t, p, r.0) == Some(level),
        level_of(t, p, r.1) == Some(level),
{
    let s = vars_at_level(vars, t, p, level);
    vstd::set_lib::lemma_len_subset(s, vars);
    let u = choose|u: nat| #[trigger] vars.contains(u) && level_of(t, p, u) == Some(level);
    assert(s.contains(u));
    let rest = s.remove(u);
    assert(rest.len() == s.len() - 1);
    if rest.len() == 0 {
        assert(s.len() == 1);
    }
    assert(rest.len() != 0);
    let v = rest.choose();
    assert(rest.contains(v)) by {
        if rest =~= Set::<nat>::empty() {
            assert(rest.len() == 0);
        } else {
            let w = choose|w: nat| rest.contains(w);
            assert(rest.contains(w));
        }
    }
    assert(s.contains(v));
    (u, v)
}

/// An entry whose variable is not in `vars` can be passed over.
pub proof fn lemma_passed(
    vars: Set<nat>,
    t: Seq<TrailEntry>,
    p: Seq<Option<usize>>,
    level: usize,
    i: int,
)
    requires
        trail_ok(t, p, level),
        0 <= i < t.len(),
        tops_before(vars, t, p, level, i + 1),
        !vars.contains(entry_var(t[i])),
    ensures
        tops_before(vars, t, p, level, i),
{
    reveal(trail_ok);
    assert forall|u: nat| #[trigger] vars.contains(u) && level_of(t, p, u) == Some(
        level,
    ) implies p[u as int].unwrap() < i by {
        if p[u as int].unwrap() == i {
            assert(entry_var(t[p[u as int].unwrap() as int]) == u);
        }
    }
}

/// Where the variables of the current level all stand at or before a
/// decision, the decided variable is the only one of them.
pub proof fn lemma_decision_alone(
    vars: Set<nat>,
    t: Seq<TrailEntry>,
    p: Seq<Option<usize>>,
    level: usize,
    i: int,
)
    requires
        trail_ok(t, p, level),
        levels_step(t),
        0 <= i < t.len(),
        t[i].reason is Decision,
        tops_before(vars, t, p, level, i + 1),
        has_top(vars, t, p, level),
    ensures
        vars_at_level(vars, t, p, level) == set![entry_var(t[i])],
        vars_at_level(vars, t, p, level).len() == 1,
{
    reveal(trail_ok);
    reveal(levels_step);
    let s = vars_at_level(vars, t, p, level);
    let d = entry_var(t[i]);
    assert forall|u: nat| #[trigger] vars.contains(u) && level_of(t, p, u) == Some(
        level,
    ) implies u == d by {
        let q = p[u as int].unwrap() as int;
        assert(q <= i);
        assert(entry_var(t[q]) == u);
        if q < i {
            assert(t[q].decision_level <= t[i - 1].decision_level);
            assert(t[i].decision_level == crate::trail::level_before(t, i) + 1);
            assert(t[i].decision_level <= t[t.len() - 1].decision_level);
        }
    }
    let w = choose|w: nat| #[trigger] vars.contains(w) && level_of(t, p, w) == Some(level);
    assert(w == d);
    assert(s =~= set![d]);
}

/// Resolving with the reason of the entry at `i` leaves a clause whose
/// variables of the current level all stand before `i`, and one of
/// them is left where there were two.
pub proof fn lemma_resolved(
    a: Shape,
    b: Shape,
    t: Seq<TrailEntry>,
    p: Seq<Option<usize>>,
    level: usize,
    i: int,
    two: (nat, nat),
)
    requires
        trail_ok(t, p, level),
        0 <= i < t.len(),
        tops_before(a.vars, t, p, level, i + 1),
        forall|u: nat| #[trigger]
            b.vars.contains(u) && u != entry_var(t[i]) ==> false_at(t, p, b.negs, u, i),
        two.0 != two.1,
        a.vars.contains(two.0),
        a.vars.contains(two.1),
        level_of(t, p, two.0) == Some(level),
        level_of(t, p, two.1) == Some(level),
    ensures
        tops_before(resolvent(a, b, entry_var(t[i])).vars, t, p, level, i),
        has_top(resolvent(a, b, entry_var(t[i])).vars, t, p, level),
{
    reveal(trail_ok);
    let v = entry_var(t[i]);
    let r = resolvent(a, b, v);
    assert forall|u: nat| #[trigger] r.vars.contains(u) && level_of(t, p, u) == Some(
        level,
    ) implies p[u as int].unwrap() < i by {
        if a.vars.contains(u) {
            if p[u as int].unwrap() == i {
                assert(entry_var(t[p[u as int].unwrap() as int]) == u);
            }
        } else {
            assert(b.vars.contains(u));
            assert(false_at(t, p, b.negs, u, i));
        }
    }
    let w = if two.0 != v {
        two.0
    } else {
        two.1
    };
    assert(r.vars.contains(w) && level_of(t, p, w) == Some(level));
}

/// Once the trail is cut back to the second highest level of a clause
/// that is false with exactly one literal of the current level, that
/// literal is the only one of the clause without a value.
pub proof fn lemma_cut_unit(
    s: Shape,
    t: Seq<TrailEntry>,
    p: Seq<Option<usize>>,
    level: usize,
    t2: Seq<TrailEntry>,
    p2: Seq<Option<usize>>,
    level2: usize,
    n: int,
    below: usize,
) -> (r: nat)
    requires
        trail_ok(t, p, level),
        trail_ok(t2, p2, level2),
        0 <= n <= t.len(),
        t2 == t.take(n),
        p2.len() == p.len(),
        below < level,
        forall|i: int| 0 <= i < n ==> (#[trigger] t[i]).decision_level <= below,
        forall|i: int| n <= i < t.len() ==> (#[trigger] t[i]).decision_level > below,
        falsified(t, p, s),
        s.vars.finite(),
        vars_at_level(s.vars, t, p, level).len() == 1,
        next_below(s.vars, t, p, level, below),
    ensures
        s.vars.contains(r),
        level_of(t2, p2, r) is None,
        forall|v: nat| #[trigger] s.vars.contains(v) && v != r ==> level_of(t2, p2, v) is Some,
{
    reveal(trail_ok);
    let tops = vars_at_level(s.vars, t, p, level);
    vstd::set_lib::lemma_len_subset(tops, s.vars);
    let r = tops.choose();
    assert(tops.contains(r)) by {
        if tops =~= Set::<nat>::empty() {
            assert(tops.len() == 0);
        } else {
            let w = choose|w: nat| tops.contains(w);
            assert(tops.contains(w));
        }
    }
    assert(false_at(t, p, s.negs, r, t.len() as int));
    let q = p[r as int].unwrap() as int;
    assert(t[q].decision_level == level);
    assert(q >= n);
    if level_of(t2, p2, r) is Some {
        let q2 = p2[r as int].unwrap() as int;
        assert(entry_var(t2[q2]) == r);
        assert(t2[q2] == t[q2]);
        assert(p[entry_var(t[q2]) as int] == Some(q2 as usize));
    }
    assert forall|v: nat| #[trigger] s.vars.contains(v) && v != r implies level_of(
        t2,
        p2,
        v,
    ) is Some by {
        assert(false_at(t, p, s.negs, v, t.len() as int));
        let qv = p[v as int].unwrap() as int;
        if t[qv].decision_level == level {
            assert(tops.contains(v));
            assert(tops.remove(r).contains(v));
            assert(tops.remove(r).len() == 0);
        }
        assert(t[qv].decision_level <= t[t.len() - 1].decision_level);
        assert(level_of(t, p, v).unwrap() < level);
        assert(t[qv].decision_level <= below);
        assert(qv < n);
        assert(t2[qv] == t[qv]);
        assert(entry_var(t[qv]) == v);
        assert(p2[entry_var(t2[qv]) as int] == Some(qv as usize));
    }
    r
}

} // verus!
