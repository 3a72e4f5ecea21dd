//! The watched-literals invariant: what the two watched literals of each
//! clause guarantee, and why the steps of the search keep it.

use crate::engine::{highest, level_of, next_below};
use crate::sat::{lit_in, lit_var};
use crate::trail::{entry_val, entry_var, false_at, falsified, trail_ok, Shape, TrailEntry};
use vstd::prelude::*;

verus! {

/// Whether the literal of variable `u` in the clause is true on the
/// trail, assigned at level `bound` or below.
pub open spec fn held(
    t: Seq<TrailEntry>,
    p: Seq<Option<usize>>,
    s: Shape,
    u: nat,
    bound: usize,
) -> bool {
    &&& s.vars.contains(u)
    &&& level_of(t, p, u) is Some
    &&& entry_val(t[p[u as int].unwrap() as int]) != s.negs.contains(u)
    &&& level_of(t, p, u).unwrap() <= bound
}

/// Whether some literal of the clause is true on the trail.
pub open spec fn satisfied(t: Seq<TrailEntry>, p: Seq<Option<usize>>, s: Shape) -> bool {
    exists|u: nat| #[trigger] held(t, p, s, u, usize::MAX)
}

/// Whether the literal `w` is false on the trail.
pub open spec fn is_false(t: Seq<TrailEntry>, p: Seq<Option<usize>>, w: int) -> bool {
    level_of(t, p, lit_var(w)) is Some && entry_val(t[p[lit_var(w) as int].unwrap() as int]) != (w
        > 0)
}

/// The level at which the variable of the literal `w` was assigned, or
/// zero where it is not on the trail.
pub open spec fn level_at(t: Seq<TrailEntry>, p: Seq<Option<usize>>, w: int) -> usize {
    match level_of(t, p, lit_var(w)) {
        Some(l) => l,
        None => 0,
    }
}

/// A watched literal that is false is excused: the clause is satisfied
/// by a literal assigned no later, or it is ready while the literal was
/// made false at the current level.
pub open spec fn excused(
    t: Seq<TrailEntry>,
    p: Seq<Option<usize>>,
    level: usize,
    s: Shape,
    in_ready: bool,
    w: int,
) -> bool {
    is_false(t, p, w) ==> (exists|u: nat| #[trigger] held(t, p, s, u, level_at(t, p, w))) || (
    in_ready && level_at(t, p, w) == level)
}

/// A clause with one literal has it assigned at level zero, or waits
/// ready at level zero.
pub open spec fn lone_ok(
    t: Seq<TrailEntry>,
    p: Seq<Option<usize>>,
    level: usize,
    pair: (int, int),
    in_ready: bool,
) -> bool {
    pair.0 == pair.1 ==> match level_of(t, p, lit_var(pair.0)) {
        Some(l) => l == 0,
        None => in_ready && level == 0,
    }
}

/// Whether `l` is the one literal of the clause that is unassigned
/// while all its others are false.
pub open spec fn unit_of(t: Seq<TrailEntry>, p: Seq<Option<usize>>, s: Shape, l: int) -> bool {
    &&& lit_in(s.vars, s.negs, l)
    &&& level_of(t, p, lit_var(l)) is None
    &&& forall|u: nat| #[trigger]
        s.vars.contains(u) && u != lit_var(l) ==> false_at(t, p, s.negs, u, t.len() as int)
}

/// A ready clause that is not satisfied has one literal left, a watched
/// one.
pub open spec fn ready_ok(
    t: Seq<TrailEntry>,
    p: Seq<Option<usize>>,
    s: Shape,
    pair: (int, int),
    in_ready: bool,
) -> bool {
    in_ready && !satisfied(t, p, s) ==> unit_of(t, p, s, pair.0) || unit_of(t, p, s, pair.1)
}

/// As `ready_ok`, but for a clause whose last literal `f`, a watched
/// one, has just been made false and has not been looked at yet.
pub open spec fn ready_pending(
    t: Seq<TrailEntry>,
    p: Seq<Option<usize>>,
    s: Shape,
    pair: (int, int),
    in_ready: bool,
    f: int,
) -> bool {
    in_ready && !satisfied(t, p, s) ==> unit_of(t, p, s, pair.0) || unit_of(t, p, s, pair.1) || (
    falsified(t, p, s) && (f == pair.0 || f == pair.1))
}

/// The watched-literals invariant for the clause in slot `k`.
pub open spec fn settled_at(
    t: Seq<TrailEntry>,
    p: Seq<Option<usize>>,
    level: usize,
    sh: Seq<Option<Shape>>,
    pairs: Seq<Option<(int, int)>>,
    ready: Set<nat>,
    k: int,
) -> bool {
    sh[k] is Some ==> {
        &&& pairs[k] is Some
        &&& excused(t, p, level, sh[k].unwrap(), ready.contains(k as nat), pairs[k].unwrap().0)
        &&& excused(t, p, level, sh[k].unwrap(), ready.contains(k as nat), pairs[k].unwrap().1)
        &&& lone_ok(t, p, level, pairs[k].unwrap(), ready.contains(k as nat))
        &&& ready_ok(t, p, sh[k].unwrap(), pairs[k].unwrap(), ready.contains(k as nat))
    }
}

/// The watched-literals invariant: it holds for every stored clause.
#[verifier::opaque]
pub open spec fn settled_all(
    t: Seq<TrailEntry>,
    p: Seq<Option<usize>>,
    level: usize,
    sh: Seq<Option<Shape>>,
    pairs: Seq<Option<(int, int)>>,
    ready: Set<nat>,
) -> bool {
    forall|k: int| 0 <= k < sh.len() ==> #[trigger] settled_at(t, p, level, sh, pairs, ready, k)
}

/// The invariant for the clause in slot `k` while the clauses that watch
/// `f`, which has just been made false, are looked at: a clause still
/// in `rest` owes nothing for its watch on `f` yet.
pub open spec fn pending_at(
    t: Seq<TrailEntry>,
    p: Seq<Option<usize>>,
    level: usize,
    sh: Seq<Option<Shape>>,
    pairs: Seq<Option<(int, int)>>,
    ready: Set<nat>,
    f: int,
    rest: Set<int>,
    k: int,
) -> bool {
    sh[k] is Some ==> {
        &&& pairs[k] is Some
        &&& (pairs[k].unwrap().0 == f && rest.contains(k) || excused(
            t,
            p,
            level,
            sh[k].unwrap(),
            ready.contains(k as nat),
            pairs[k].unwrap().0,
        ))
        &&& (pairs[k].unwrap().1 == f && rest.contains(k) || excused(
            t,
            p,
            level,
            sh[k].unwrap(),
            ready.contains(k as nat),
            pairs[k].unwrap().1,
        ))
        &&& lone_ok(t, p, level, pairs[k].unwrap(), ready.contains(k as nat))
        &&& (if rest.contains(k) {
            ready_pending(t, p, sh[k].unwrap(), pairs[k].unwrap(), ready.contains(k as nat), f)
        } else {
            ready_ok(t, p, sh[k].unwrap(), pairs[k].unwrap(), ready.contains(k as nat))
        })
    }
}

/// The invariant while the clauses in `rest` that watch `f` are still to
/// be looked at.
#[verifier::opaque]
pub open spec fn pending_all(
    t: Seq<TrailEntry>,
    p: Seq<Option<usize>>,
    level: usize,
    sh: Seq<Option<Shape>>,
    pairs: Seq<Option<(int, int)>>,
    ready: Set<nat>,
    f: int,
    rest: Set<int>,
) -> bool {
    forall|k: int|
        0 <= k < sh.len() ==> #[trigger] pending_at(t, p, level, sh, pairs, ready, f, rest, k)
}

/// What is left of the invariant for the clause in slot `k` after a
/// conflict: a false watched literal is excused by a literal assigned no
/// later or by being of the current level, and a lone literal is of
/// level zero.
pub open spec fn loose_at(
    t: Seq<TrailEntry>,
    p: Seq<Option<usize>>,
    level: usize,
    sh: Seq<Option<Shape>>,
    pairs: Seq<Option<(int, int)>>,
    k: int,
) -> bool {
    sh[k] is Some ==> {
        &&& pairs[k] is Some
        &&& (is_false(t, p, pairs[k].unwrap().0) ==> (exists|u: nat| #[trigger]
            held(t, p, sh[k].unwrap(), u, level_at(t, p, pairs[k].unwrap().0))) || level_at(
            t,
            p,
            pairs[k].unwrap().0,
        ) == level)
        &&& (is_false(t, p, pairs[k].unwrap().1) ==> (exists|u: nat| #[trigger]
            held(t, p, sh[k].unwrap(), u, level_at(t, p, pairs[k].unwrap().1))) || level_at(
            t,
            p,
            pairs[k].unwrap().1,
        ) == level)
        &&& (pairs[k].unwrap().0 == pairs[k].unwrap().1 ==> match level_of(
            t,
            p,
            lit_var(pairs[k].unwrap().0),
        ) {
            Some(l) => l == 0,
            None => level == 0,
        })
    }
}

/// What is left of the invariant after a conflict.
#[verifier::opaque]
pub open spec fn loose_all(
    t: Seq<TrailEntry>,
    p: Seq<Option<usize>>,
    level: usize,
    sh: Seq<Option<Shape>>,
    pairs: Seq<Option<(int, int)>>,
) -> bool {
    forall|k: int| 0 <= k < sh.len() ==> #[trigger] loose_at(t, p, level, sh, pairs, k)
}

/// The invariant with nothing left to look at is the invariant.
pub proof fn lemma_pending_done(
    t: Seq<TrailEntry>,
    p: Seq<Option<usize>>,
    level: usize,
    sh: Seq<Option<Shape>>,
    pairs: Seq<Option<(int, int)>>,
    ready: Set<nat>,
    f: int,
)
    requires
        pending_all(t, p, level, sh, pairs, ready, f, Set::<int>::empty()),
    ensures
        settled_all(t, p, level, sh, pairs, ready),
{
    reveal(pending_all);
    reveal(settled_all);
    assert forall|k: int| 0 <= k < sh.len() implies #[trigger] settled_at(
        t,
        p,
        level,
        sh,
        pairs,
        ready,
        k,
    ) by {
        assert(pending_at(t, p, level, sh, pairs, ready, f, Set::<int>::empty(), k));
    }
}

/// While a literal made false at the current level is looked at, what is
/// left of the invariant after a conflict holds.
pub proof fn lemma_pending_loose(
    t: Seq<TrailEntry>,
    p: Seq<Option<usize>>,
    level: usize,
    sh: Seq<Option<Shape>>,
    pairs: Seq<Option<(int, int)>>,
    ready: Set<nat>,
    f: int,
    rest: Set<int>,
)
    requires
        pending_all(t, p, level, sh, pairs, ready, f, rest),
        level_at(t, p, f) == level,
    ensures
        loose_all(t, p, level, sh, pairs),
{
    reveal(pending_all);
    reveal(loose_all);
    assert forall|k: int| 0 <= k < sh.len() implies #[trigger] loose_at(t, p, level, sh, pairs, k) by {
        assert(pending_at(t, p, level, sh, pairs, ready, f, rest, k));
    }
}

/// Every entry of the trail is of the current level or below.
pub proof fn lemma_levels_bounded(
    t: Seq<TrailEntry>,
    p: Seq<Option<usize>>,
    level: usize,
    u: nat,
)
    requires
        trail_ok(t, p, level),
        level_of(t, p, u) is Some,
    ensures
        level_of(t, p, u).unwrap() <= level,
{
    reveal(trail_ok);
    let i = p[u as int].unwrap() as int;
    assert(t[i].decision_level <= t[t.len() - 1].decision_level);
}

/// The trail after one more entry, for a variable that was not on it.
pub open spec fn pushed(
    t: Seq<TrailEntry>,
    p: Seq<Option<usize>>,
    t2: Seq<TrailEntry>,
    p2: Seq<Option<usize>>,
    e: TrailEntry,
) -> bool {
    &&& t2 == t.push(e)
    &&& entry_var(e) < p.len()
    &&& p[entry_var(e) as int] is None
    &&& p2 == p.update(entry_var(e) as int, Some(t.len() as usize))
    &&& e.literal.as_int() != 0
}

/// The watched literals of a clause are literals of it, and they are
/// one literal only where the clause has no other.
pub open spec fn pair_lits(s: Shape, pair: (int, int)) -> bool {
    &&& lit_in(s.vars, s.negs, pair.0)
    &&& lit_in(s.vars, s.negs, pair.1)
    &&& (pair.0 == pair.1 ==> forall|u: nat| #[trigger] s.vars.contains(u) ==> u == lit_var(pair.0))
}

/// Every recorded pair is of literals of its clause.
pub open spec fn pairs_sound(sh: Seq<Option<Shape>>, pairs: Seq<Option<(int, int)>>) -> bool {
    forall|k: int|
        0 <= k < sh.len() && sh[k] is Some && (#[trigger] pairs[k]) is Some ==> pair_lits(
            sh[k].unwrap(),
            pairs[k].unwrap(),
        )
}

/// What one more entry changes: the new variable has the entry's level
/// and value, and every other variable is as it was.
pub proof fn lemma_pushed(
    t: Seq<TrailEntry>,
    p: Seq<Option<usize>>,
    level: usize,
    t2: Seq<TrailEntry>,
    p2: Seq<Option<usize>>,
    e: TrailEntry,
    u: nat,
)
    requires
        trail_ok(t, p, level),
        pushed(t, p, t2, p2, e),
    ensures
        u == entry_var(e) ==> level_of(t2, p2, u) == Some(e.decision_level) && level_of(t, p, u)
            is None && t2[p2[u as int].unwrap() as int] == e,
        u != entry_var(e) ==> level_of(t2, p2, u) == level_of(t, p, u) && (level_of(t, p, u)
            is Some ==> t2[p2[u as int].unwrap() as int] == t[p[u as int].unwrap() as int]),
{
    reveal(trail_ok);
    if u != entry_var(e) && u < p.len() && p[u as int] is Some {
        assert(p[u as int].unwrap() < t.len());
    }
}

/// A literal made true excuses, and a clause true before is true after.
proof fn lemma_held_pushed(
    t: Seq<TrailEntry>,
    p: Seq<Option<usize>>,
    level: usize,
    t2: Seq<TrailEntry>,
    p2: Seq<Option<usize>>,
    e: TrailEntry,
    s: Shape,
    u: nat,
    bound: usize,
)
    requires
        trail_ok(t, p, level),
        pushed(t, p, t2, p2, e),
        held(t, p, s, u, bound),
    ensures
        held(t2, p2, s, u, bound),
{
    lemma_pushed(t, p, level, t2, p2, e, u);
}

/// A literal false before one more entry is false after it, and a
/// literal of another variable false after it was false before.
proof fn lemma_false_pushed(
    t: Seq<TrailEntry>,
    p: Seq<Option<usize>>,
    level: usize,
    t2: Seq<TrailEntry>,
    p2: Seq<Option<usize>>,
    e: TrailEntry,
    negs: Set<nat>,
    u: nat,
)
    requires
        trail_ok(t, p, level),
        pushed(t, p, t2, p2, e),
        false_at(t, p, negs, u, t.len() as int),
    ensures
        false_at(t2, p2, negs, u, t2.len() as int),
{
    reveal(trail_ok);
    lemma_pushed(t, p, level, t2, p2, e, u);
}

/// A watched literal other than the one just made false is excused
/// after one more entry if it was before.
proof fn lemma_excused_pushed(
    t: Seq<TrailEntry>,
    p: Seq<Option<usize>>,
    level: usize,
    t2: Seq<TrailEntry>,
    p2: Seq<Option<usize>>,
    level2: usize,
    e: TrailEntry,
    s: Shape,
    r1: bool,
    r2: bool,
    forced_by_this: bool,
    w: int,
)
    requires
        trail_ok(t, p, level),
        pushed(t, p, t2, p2, e),
        e.decision_level == level2,
        w != -e.literal.as_int(),
        excused(t, p, level, s, r1, w),
        r1 ==> level2 == level,
        r1 && !r2 ==> forced_by_this,
        forced_by_this ==> lit_in(s.vars, s.negs, e.literal.as_int()),
    ensures
        excused(t2, p2, level2, s, r2, w),
{
    let l = e.literal.as_int();
    let v = entry_var(e);
    lemma_pushed(t, p, level, t2, p2, e, lit_var(w));
    lemma_pushed(t, p, level, t2, p2, e, v);
    if is_false(t2, p2, w) {
        if lit_var(w) == v {
            assert(w == l || w == -l);
            assert(false);
        }
        assert(is_false(t, p, w));
        assert(level_at(t2, p2, w) == level_at(t, p, w));
        if exists|u: nat| #[trigger] held(t, p, s, u, level_at(t, p, w)) {
            let u = choose|u: nat| #[trigger] held(t, p, s, u, level_at(t, p, w));
            lemma_held_pushed(t, p, level, t2, p2, e, s, u, level_at(t, p, w));
            assert(held(t2, p2, s, u, level_at(t2, p2, w)));
        } else {
            assert(r1 && level_at(t, p, w) == level);
            if !r2 {
                assert(s.vars.contains(v));
                assert(held(t2, p2, s, v, level_at(t2, p2, w)));
            }
        }
    }
}

/// After a literal is put on the trail, decided while nothing was ready
/// or forced by the ready clause in slot `from` that is now taken off
/// the ready set, the invariant holds but for what the clauses that
/// watch the negated literal still owe.
pub proof fn lemma_after_push(
    t: Seq<TrailEntry>,
    p: Seq<Option<usize>>,
    level: usize,
    t2: Seq<TrailEntry>,
    p2: Seq<Option<usize>>,
    level2: usize,
    e: TrailEntry,
    sh: Seq<Option<Shape>>,
    pairs: Seq<Option<(int, int)>>,
    ready: Set<nat>,
    from: Option<int>,
)
    requires
        trail_ok(t, p, level),
        trail_ok(t2, p2, level2),
        pushed(t, p, t2, p2, e),
        e.decision_level == level2,
        pairs_sound(sh, pairs),
        settled_all(t, p, level, sh, pairs, ready),
        match from {
            Some(k0) => level2 == level && 0 <= k0 < sh.len() && sh[k0] is Some && unit_of(
                t,
                p,
                sh[k0].unwrap(),
                e.literal.as_int(),
            ),
            None => ready == Set::<nat>::empty(),
        },
    ensures
        pending_all(
            t2,
            p2,
            level2,
            sh,
            pairs,
            match from {
                Some(k0) => ready.remove(k0 as nat),
                None => ready,
            },
            -e.literal.as_int(),
            Set::new(|k: int| 0 <= k < sh.len()),
        ),
{
    reveal(settled_all);
    reveal(pending_all);
    let l = e.literal.as_int();
    let f = -l;
    let v = entry_var(e);
    let ready2 = match from {
        Some(k0) => ready.remove(k0 as nat),
        None => ready,
    };
    let rest = Set::new(|k: int| 0 <= k < sh.len());
    assert forall|k: int| 0 <= k < sh.len() implies #[trigger] pending_at(
        t2,
        p2,
        level2,
        sh,
        pairs,
        ready2,
        f,
        rest,
        k,
    ) by {
        assert(settled_at(t, p, level, sh, pairs, ready, k));
        if sh[k] is Some {
            let s = sh[k].unwrap();
            let pair = pairs[k].unwrap();
            let r1 = ready.contains(k as nat);
            let r2 = ready2.contains(k as nat);
            assert(pair_lits(s, pair));
            assert(rest.contains(k));
            lemma_pushed(t, p, level, t2, p2, e, v);
            lemma_pushed(t, p, level, t2, p2, e, lit_var(pair.0));
            lemma_pushed(t, p, level, t2, p2, e, lit_var(pair.1));
            let forced_by_this = from is Some && from.unwrap() == k;
            if pair.0 != f {
                lemma_excused_pushed(
                    t,
                    p,
                    level,
                    t2,
                    p2,
                    level2,
                    e,
                    s,
                    r1,
                    r2,
                    forced_by_this,
                    pair.0,
                );
            }
            if pair.1 != f {
                lemma_excused_pushed(
                    t,
                    p,
                    level,
                    t2,
                    p2,
                    level2,
                    e,
                    s,
                    r1,
                    r2,
                    forced_by_this,
                    pair.1,
                );
            }
            assert(lone_ok(t2, p2, level2, pair, r2)) by {
                if pair.0 == pair.1 {
                    if lit_var(pair.0) == v {
                    } else {
                        if level_of(t, p, lit_var(pair.0)) is None {
                            if from is Some && from.unwrap() == k {
                                assert(s.vars.contains(v));
                            }
                        }
                    }
                }
            }
            assert(ready_pending(t2, p2, s, pair, r2, f)) by {
                if r2 && !satisfied(t2, p2, s) {
                    assert(r1);
                    if satisfied(t, p, s) {
                        let u = choose|u: nat| #[trigger] held(t, p, s, u, usize::MAX);
                        lemma_held_pushed(t, p, level, t2, p2, e, s, u, usize::MAX);
                    }
                    assert(ready_ok(t, p, s, pair, r1));
                    let x = if unit_of(t, p, s, pair.0) {
                        pair.0
                    } else {
                        pair.1
                    };
                    assert(unit_of(t, p, s, x));
                    if lit_var(x) != v {
                        lemma_pushed(t, p, level, t2, p2, e, lit_var(x));
                        assert forall|u: nat| #[trigger]
                            s.vars.contains(u) && u != lit_var(x) implies false_at(
                            t2,
                            p2,
                            s.negs,
                            u,
                            t2.len() as int,
                        ) by {
                            lemma_false_pushed(t, p, level, t2, p2, e, s.negs, u);
                        }
                        assert(unit_of(t2, p2, s, x));
                    } else {
                        if x == l {
                            assert(held(t2, p2, s, v, usize::MAX));
                        } else {
                            assert(x == f);
                            assert forall|u: nat| #[trigger] s.vars.contains(u) implies false_at(
                                t2,
                                p2,
                                s.negs,
                                u,
                                t2.len() as int,
                            ) by {
                                if u != v {
                                    lemma_false_pushed(t, p, level, t2, p2, e, s.negs, u);
                                }
                            }
                        }
                    }
                }
            }
        }
    }
}

/// A clause that is satisfied is excused for any watched literal that
/// is false at the current level.
proof fn lemma_satisfied_excuses(
    t: Seq<TrailEntry>,
    p: Seq<Option<usize>>,
    level: usize,
    s: Shape,
    in_ready: bool,
    w: int,
)
    requires
        trail_ok(t, p, level),
        satisfied(t, p, s),
        level_at(t, p, w) == level,
    ensures
        excused(t, p, level, s, in_ready, w),
{
    let u = choose|u: nat| #[trigger] held(t, p, s, u, usize::MAX);
    lemma_levels_bounded(t, p, level, u);
    assert(held(t, p, s, u, level_at(t, p, w)));
}

/// A clause taken off the ready set without being acted on, because its
/// slot is free or it is satisfied, leaves the invariant intact.
pub proof fn lemma_pop_skip(
    t: Seq<TrailEntry>,
    p: Seq<Option<usize>>,
    level: usize,
    sh: Seq<Option<Shape>>,
    pairs: Seq<Option<(int, int)>>,
    ready: Set<nat>,
    k0: int,
)
    requires
        trail_ok(t, p, level),
        settled_all(t, p, level, sh, pairs, ready),
        0 <= k0 < sh.len(),
        sh[k0] is Some ==> satisfied(t, p, sh[k0].unwrap()),
        pairs_sound(sh, pairs),
    ensures
        settled_all(t, p, level, sh, pairs, ready.remove(k0 as nat)),
{
    reveal(settled_all);
    let ready2 = ready.remove(k0 as nat);
    assert forall|k: int| 0 <= k < sh.len() implies #[trigger] settled_at(
        t,
        p,
        level,
        sh,
        pairs,
        ready2,
        k,
    ) by {
        assert(settled_at(t, p, level, sh, pairs, ready, k));
        if k == k0 && sh[k] is Some {
            let s = sh[k].unwrap();
            let pair = pairs[k].unwrap();
            assert(pair_lits(s, pair));
            let u = choose|u: nat| #[trigger] held(t, p, s, u, usize::MAX);
            assert forall|w: int| (w == pair.0 || w == pair.1) implies excused(
                t,
                p,
                level,
                s,
                false,
                w,
            ) by {
                if is_false(t, p, w) {
                    assert(excused(t, p, level, s, ready.contains(k as nat), w));
                    if !(exists|x: nat| #[trigger] held(t, p, s, x, level_at(t, p, w))) {
                        lemma_satisfied_excuses(t, p, level, s, false, w);
                    }
                }
            }
            if pair.0 == pair.1 {
                assert(u == lit_var(pair.0));
            }
        }
    }
}

/// Clauses leave the set of those still to be looked at: each that
/// leaves is excused for its watch on `f`, if it has one, and is ready
/// only as a ready clause may be.
pub proof fn lemma_rest_shrinks(
    t: Seq<TrailEntry>,
    p: Seq<Option<usize>>,
    level: usize,
    sh: Seq<Option<Shape>>,
    pairs: Seq<Option<(int, int)>>,
    ready: Set<nat>,
    f: int,
    rest: Set<int>,
    rest2: Set<int>,
)
    requires
        pending_all(t, p, level, sh, pairs, ready, f, rest),
        rest2.subset_of(rest),
        forall|k: int|
            0 <= k < sh.len() && sh[k] is Some && rest.contains(k) && !#[trigger] rest2.contains(
                k,
            ) ==> pairs[k] is Some && (pairs[k].unwrap().0 == f || pairs[k].unwrap().1 == f
                ==> excused(t, p, level, sh[k].unwrap(), ready.contains(k as nat), f))
                && ready_ok(t, p, sh[k].unwrap(), pairs[k].unwrap(), ready.contains(k as nat)),
    ensures
        pending_all(t, p, level, sh, pairs, ready, f, rest2),
{
    reveal(pending_all);
    assert forall|k: int| 0 <= k < sh.len() implies #[trigger] pending_at(
        t,
        p,
        level,
        sh,
        pairs,
        ready,
        f,
        rest2,
        k,
    ) by {
        assert(pending_at(t, p, level, sh, pairs, ready, f, rest, k));
        if sh[k] is Some && rest.contains(k) && !rest2.contains(k) {
        }
    }
}

/// A clause that does not watch `f` owes nothing for it.
pub proof fn lemma_not_watching(
    t: Seq<TrailEntry>,
    p: Seq<Option<usize>>,
    level: usize,
    sh: Seq<Option<Shape>>,
    pairs: Seq<Option<(int, int)>>,
    ready: Set<nat>,
    f: int,
    rest: Set<int>,
    k: int,
)
    requires
        pending_all(t, p, level, sh, pairs, ready, f, rest),
        0 <= k < sh.len(),
        sh[k] is Some,
        pairs[k] is Some ==> pairs[k].unwrap().0 != f && pairs[k].unwrap().1 != f,
    ensures
        pairs[k] is Some,
        ready_ok(t, p, sh[k].unwrap(), pairs[k].unwrap(), ready.contains(k as nat)),
{
    reveal(pending_all);
    assert(pending_at(t, p, level, sh, pairs, ready, f, rest, k));
}

/// A satisfied clause owes nothing for its watch on `f`, which is false
/// at the current level.
pub proof fn lemma_seen_satisfied(
    t: Seq<TrailEntry>,
    p: Seq<Option<usize>>,
    level: usize,
    sh: Seq<Option<Shape>>,
    pairs: Seq<Option<(int, int)>>,
    ready: Set<nat>,
    f: int,
    rest: Set<int>,
    k: int,
)
    requires
        trail_ok(t, p, level),
        pending_all(t, p, level, sh, pairs, ready, f, rest),
        0 <= k < sh.len(),
        sh[k] is Some,
        satisfied(t, p, sh[k].unwrap()),
        level_at(t, p, f) == level,
    ensures
        pairs[k] is Some,
        excused(t, p, level, sh[k].unwrap(), ready.contains(k as nat), f),
        ready_ok(t, p, sh[k].unwrap(), pairs[k].unwrap(), ready.contains(k as nat)),
{
    reveal(pending_all);
    assert(pending_at(t, p, level, sh, pairs, ready, f, rest, k));
    lemma_satisfied_excuses(t, p, level, sh[k].unwrap(), ready.contains(k as nat), f);
}

/// The clause in slot `k` gives up its watch on `f` for one on `to`, an
/// unassigned literal of it that it did not watch: it then owes
/// nothing.
pub proof fn lemma_seen_moved(
    t: Seq<TrailEntry>,
    p: Seq<Option<usize>>,
    level: usize,
    sh: Seq<Option<Shape>>,
    pairs: Seq<Option<(int, int)>>,
    pairs2: Seq<Option<(int, int)>>,
    ready: Set<nat>,
    f: int,
    to: int,
    rest: Set<int>,
    k: int,
)
    requires
        trail_ok(t, p, level),
        pending_all(t, p, level, sh, pairs, ready, f, rest),
        pairs_sound(sh, pairs),
        pairs.len() == sh.len(),
        0 <= k < sh.len(),
        sh[k] is Some,
        pairs[k] is Some,
        pairs[k].unwrap().0 == f || pairs[k].unwrap().1 == f,
        to != pairs[k].unwrap().0,
        to != pairs[k].unwrap().1,
        lit_in(sh[k].unwrap().vars, sh[k].unwrap().negs, to),
        level_of(t, p, lit_var(to)) is None,
        level_of(t, p, lit_var(f)) is Some,
        pairs2 == pairs.update(
            k,
            Some(
                if pairs[k].unwrap().0 == f {
                    (to, pairs[k].unwrap().1)
                } else {
                    (pairs[k].unwrap().0, to)
                },
            ),
        ),
    ensures
        pending_all(t, p, level, sh, pairs2, ready, f, rest.remove(k)),
        pairs_sound(sh, pairs2),
{
    reveal(pending_all);
    let rest2 = rest.remove(k);
    let s = sh[k].unwrap();
    let old = pairs[k].unwrap();
    assert(pending_at(t, p, level, sh, pairs, ready, f, rest, k));
    assert(pair_lits(s, old));
    assert(s.vars.contains(lit_var(to)));
    if old.0 == old.1 {
        assert(lit_var(to) == lit_var(old.0));
        assert(false);
    }
    assert(lit_var(to) != lit_var(old.0) && lit_var(to) != lit_var(old.1));
    let in_ready = ready.contains(k as nat);
    assert(!(in_ready && !satisfied(t, p, s))) by {
        if in_ready && !satisfied(t, p, s) {
            if unit_of(t, p, s, old.0) {
                assert(false_at(t, p, s.negs, lit_var(to), t.len() as int));
            } else if unit_of(t, p, s, old.1) {
                assert(false_at(t, p, s.negs, lit_var(to), t.len() as int));
            } else {
                assert(falsified(t, p, s));
                assert(false_at(t, p, s.negs, lit_var(to), t.len() as int));
            }
        }
    }
    assert forall|j: int| 0 <= j < sh.len() implies #[trigger] pending_at(
        t,
        p,
        level,
        sh,
        pairs2,
        ready,
        f,
        rest2,
        j,
    ) by {
        assert(pending_at(t, p, level, sh, pairs, ready, f, rest, j));
        if j == k {
            let new = pairs2[k].unwrap();
            assert(!is_false(t, p, to));
        }
    }
    assert forall|j: int|
        0 <= j < sh.len() && sh[j] is Some && (#[trigger] pairs2[j]) is Some implies pair_lits(
        sh[j].unwrap(),
        pairs2[j].unwrap(),
    ) by {
        if j != k {
            assert(pairs[j] is Some);
        }
    }
}

/// The clause in slot `k`, left with one literal that it watches, is
/// marked ready: it then owes nothing for its watch on `f`, which is
/// false at the current level.
pub proof fn lemma_seen_unit(
    t: Seq<TrailEntry>,
    p: Seq<Option<usize>>,
    level: usize,
    sh: Seq<Option<Shape>>,
    pairs: Seq<Option<(int, int)>>,
    ready: Set<nat>,
    f: int,
    unit: int,
    rest: Set<int>,
    k: int,
)
    requires
        trail_ok(t, p, level),
        pending_all(t, p, level, sh, pairs, ready, f, rest),
        pairs_sound(sh, pairs),
        0 <= k < sh.len(),
        sh[k] is Some,
        pairs[k] is Some,
        pairs[k].unwrap().0 == f || pairs[k].unwrap().1 == f,
        unit == pairs[k].unwrap().0 || unit == pairs[k].unwrap().1,
        unit_of(t, p, sh[k].unwrap(), unit),
        level_of(t, p, lit_var(f)) is Some,
        level_at(t, p, f) == level,
    ensures
        pending_all(t, p, level, sh, pairs, ready.insert(k as nat), f, rest.remove(k)),
{
    reveal(pending_all);
    let rest2 = rest.remove(k);
    let ready2 = ready.insert(k as nat);
    assert forall|j: int| 0 <= j < sh.len() implies #[trigger] pending_at(
        t,
        p,
        level,
        sh,
        pairs,
        ready2,
        f,
        rest2,
        j,
    ) by {
        assert(pending_at(t, p, level, sh, pairs, ready, f, rest, j));
        if j == k {
            let s = sh[k].unwrap();
            let pair = pairs[k].unwrap();
            assert(pair_lits(s, pair));
        }
    }
}

/// What is left of a variable after the trail is cut back to its first
/// `n` entries: it keeps its entry if that is among them, and is off
/// the trail if not.
pub proof fn lemma_taken(
    t: Seq<TrailEntry>,
    p: Seq<Option<usize>>,
    level: usize,
    t2: Seq<TrailEntry>,
    p2: Seq<Option<usize>>,
    level2: usize,
    n: int,
    u: nat,
)
    requires
        trail_ok(t, p, level),
        trail_ok(t2, p2, level2),
        0 <= n <= t.len(),
        t2 == t.take(n),
        p2.len() == p.len(),
    ensures
        level_of(t2, p2, u) == if level_of(t, p, u) is Some && p[u as int].unwrap() < n {
            level_of(t, p, u)
        } else {
            None
        },
        level_of(t2, p2, u) is Some ==> t2[p2[u as int].unwrap() as int] == t[p[u as int].unwrap() as int],
{
    reveal(trail_ok);
    if u < p.len() {
        if p2[u as int] is Some {
            let i = p2[u as int].unwrap() as int;
            assert(entry_var(t2[i]) == u);
            assert(t2[i] == t[i]);
            assert(p[entry_var(t[i]) as int] == Some(i as usize));
        }
        if p[u as int] is Some && p[u as int].unwrap() < n {
            let i = p[u as int].unwrap() as int;
            assert(entry_var(t[i]) == u);
            assert(t2[i] == t[i]);
            assert(p2[entry_var(t2[i]) as int] == Some(i as usize));
        }
    }
}

/// After a conflict the trail is cut back to a level below the current
/// one and the ready set is emptied: the invariant holds again.
pub proof fn lemma_after_backjump(
    t: Seq<TrailEntry>,
    p: Seq<Option<usize>>,
    level: usize,
    t2: Seq<TrailEntry>,
    p2: Seq<Option<usize>>,
    level2: usize,
    n: int,
    below: usize,
    sh: Seq<Option<Shape>>,
    pairs: Seq<Option<(int, int)>>,
)
    requires
        trail_ok(t, p, level),
        trail_ok(t2, p2, level2),
        0 <= n <= t.len(),
        t2 == t.take(n),
        p2.len() == p.len(),
        below < level,
        forall|i: int| 0 <= i < n ==> (#[trigger] t[i]).decision_level <= below,
        forall|i: int| n <= i < t.len() ==> (#[trigger] t[i]).decision_level > below,
        loose_all(t, p, level, sh, pairs),
    ensures
        settled_all(t2, p2, level2, sh, pairs, Set::<nat>::empty()),
{
    reveal(loose_all);
    reveal(settled_all);
    let ready = Set::<nat>::empty();
    assert forall|k: int| 0 <= k < sh.len() implies #[trigger] settled_at(
        t2,
        p2,
        level2,
        sh,
        pairs,
        ready,
        k,
    ) by {
        assert(loose_at(t, p, level, sh, pairs, k));
        if sh[k] is Some {
            let s = sh[k].unwrap();
            let pair = pairs[k].unwrap();
            assert forall|w: int| (w == pair.0 || w == pair.1) implies excused(
                t2,
                p2,
                level2,
                s,
                false,
                w,
            ) by {
                lemma_taken(t, p, level, t2, p2, level2, n, lit_var(w));
                if is_false(t2, p2, w) {
                    assert(is_false(t, p, w));
                    let i = p[lit_var(w) as int].unwrap() as int;
                    assert(t[i].decision_level <= below);
                    assert(level_at(t, p, w) != level);
                    let u = choose|u: nat| #[trigger] held(t, p, s, u, level_at(t, p, w));
                    lemma_taken(t, p, level, t2, p2, level2, n, u);
                    let j = p[u as int].unwrap() as int;
                    assert(j < t.len()) by {
                        reveal(trail_ok);
                    }
                    if j >= n {
                        assert(t[j].decision_level > below);
                    }
                    assert(held(t2, p2, s, u, level_at(t2, p2, w)));
                }
            }
            if pair.0 == pair.1 {
                let x = lit_var(pair.0);
                lemma_taken(t, p, level, t2, p2, level2, n, x);
                if level_of(t2, p2, x) is None {
                    if level_of(t, p, x) is Some {
                        let j = p[x as int].unwrap() as int;
                        assert(j < t.len()) by {
                            reveal(trail_ok);
                        }
                        assert(t[j].decision_level > below);
                    }
                    assert(false);
                }
            }
        }
    }
}

/// The invariant for every stored clause but the one in slot `idx`.
#[verifier::opaque]
pub open spec fn settled_but(
    t: Seq<TrailEntry>,
    p: Seq<Option<usize>>,
    level: usize,
    sh: Seq<Option<Shape>>,
    pairs: Seq<Option<(int, int)>>,
    ready: Set<nat>,
    idx: int,
) -> bool {
    forall|k: int|
        0 <= k < sh.len() && k != idx ==> #[trigger] settled_at(t, p, level, sh, pairs, ready, k)
}

/// A clause newly put in slot `idx`, which is not ready, leaves the
/// invariant intact for all the others.
pub proof fn lemma_stored(
    t: Seq<TrailEntry>,
    p: Seq<Option<usize>>,
    level: usize,
    sh: Seq<Option<Shape>>,
    pairs: Seq<Option<(int, int)>>,
    sh2: Seq<Option<Shape>>,
    pairs2: Seq<Option<(int, int)>>,
    ready: Set<nat>,
    idx: int,
)
    requires
        settled_all(t, p, level, sh, pairs, ready),
        0 <= idx < sh2.len(),
        sh.len() <= sh2.len() <= sh.len() + 1,
        forall|k: int| 0 <= k < sh.len() && k != idx ==> sh2[k] == sh[k] && pairs2[k] == pairs[k],
        idx >= sh.len() || sh2.len() == sh.len(),
    ensures
        settled_but(t, p, level, sh2, pairs2, ready, idx),
        settled_but(t, p, level, sh2, pairs2, ready.remove(idx as nat), idx),
{
    reveal(settled_all);
    reveal(settled_but);
    assert forall|k: int| 0 <= k < sh2.len() && k != idx implies #[trigger] settled_at(
        t,
        p,
        level,
        sh2,
        pairs2,
        ready,
        k,
    ) by {
        assert(settled_at(t, p, level, sh, pairs, ready, k));
    }
    assert forall|k: int| 0 <= k < sh2.len() && k != idx implies #[trigger] settled_at(
        t,
        p,
        level,
        sh2,
        pairs2,
        ready.remove(idx as nat),
        k,
    ) by {
        assert(settled_at(t, p, level, sh, pairs, ready, k));
    }
}

/// How a newly stored clause may be watched so that the invariant
/// holds: by two unassigned literals; or, marked ready, by its one
/// unassigned literal and a literal made false at the current level;
/// or, marked ready at level zero, by its only literal.
pub open spec fn fits(
    t: Seq<TrailEntry>,
    p: Seq<Option<usize>>,
    level: usize,
    s: Shape,
    pair: (int, int),
    mark: bool,
) -> bool {
    &&& pair_lits(s, pair)
    &&& {
        ||| (pair.0 != pair.1 && level_of(t, p, lit_var(pair.0)) is None && level_of(
            t,
            p,
            lit_var(pair.1),
        ) is None && !mark)
        ||| (pair.0 != pair.1 && unit_of(t, p, s, pair.0) && mark && level_at(t, p, pair.1)
            == level)
        ||| (pair.0 == pair.1 && unit_of(t, p, s, pair.0) && mark && level == 0)
    }
}

/// A newly stored clause that is watched as fits it completes the
/// invariant.
pub proof fn lemma_installed(
    t: Seq<TrailEntry>,
    p: Seq<Option<usize>>,
    level: usize,
    sh: Seq<Option<Shape>>,
    pairs: Seq<Option<(int, int)>>,
    pairs2: Seq<Option<(int, int)>>,
    ready: Set<nat>,
    ready2: Set<nat>,
    idx: int,
    pair: (int, int),
    mark: bool,
)
    requires
        settled_but(t, p, level, sh, pairs, ready, idx),
        0 <= idx < sh.len(),
        pairs.len() == sh.len(),
        sh[idx] is Some,
        !ready.contains(idx as nat),
        pairs2 == pairs.update(idx, Some(pair)),
        ready2 == if mark {
            ready.insert(idx as nat)
        } else {
            ready
        },
        fits(t, p, level, sh[idx].unwrap(), pair, mark),
    ensures
        settled_all(t, p, level, sh, pairs2, ready2),
{
    reveal(settled_all);
    reveal(settled_but);
    assert forall|k: int| 0 <= k < sh.len() implies #[trigger] settled_at(
        t,
        p,
        level,
        sh,
        pairs2,
        ready2,
        k,
    ) by {
        if k != idx {
            assert(settled_at(t, p, level, sh, pairs, ready, k));
        } else {
            let s = sh[idx].unwrap();
            if unit_of(t, p, s, pair.0) {
                assert(!is_false(t, p, pair.0));
            }
        }
    }
}

/// Whether `x` is the only variable of the clause.
pub open spec fn sole(s: Shape, x: nat) -> bool {
    s.vars.contains(x) && forall|u: nat| #[trigger] s.vars.contains(u) ==> u == x
}

/// Whether the clause has exactly one literal.
pub open spec fn lone(s: Shape) -> bool {
    exists|x: nat| #[trigger] sole(s, x)
}

/// On a trail without entries, with the clauses of one literal ready
/// and no others, the invariant holds.
pub proof fn lemma_fresh(
    t: Seq<TrailEntry>,
    p: Seq<Option<usize>>,
    sh: Seq<Option<Shape>>,
    pairs: Seq<Option<(int, int)>>,
    ready: Set<nat>,
)
    requires
        t.len() == 0,
        pairs_sound(sh, pairs),
        forall|k: int| 0 <= k < sh.len() && sh[k] is Some ==> (#[trigger] pairs[k]) is Some,
        forall|k: int|
            0 <= k < sh.len() && (#[trigger] sh[k]) is Some ==> (ready.contains(k as nat) <==> lone(
                sh[k].unwrap(),
            )),
    ensures
        settled_all(t, p, 0, sh, pairs, ready),
{
    reveal(settled_all);
    assert forall|k: int| 0 <= k < sh.len() implies #[trigger] settled_at(
        t,
        p,
        0,
        sh,
        pairs,
        ready,
        k,
    ) by {
        if sh[k] is Some {
            let s = sh[k].unwrap();
            assert(pairs[k] is Some);
            let pair = pairs[k].unwrap();
            assert(pair_lits(s, pair));
            assert(ready.contains(k as nat) <==> lone(s));
            lemma_fresh_clause(t, p, s, pair, ready.contains(k as nat));
        }
    }
}

/// On a trail without entries a clause is settled if it is ready
/// exactly when it has one literal.
proof fn lemma_fresh_clause(
    t: Seq<TrailEntry>,
    p: Seq<Option<usize>>,
    s: Shape,
    pair: (int, int),
    in_ready: bool,
)
    requires
        t.len() == 0,
        pair_lits(s, pair),
        in_ready <==> lone(s),
    ensures
        excused(t, p, 0, s, in_ready, pair.0),
        excused(t, p, 0, s, in_ready, pair.1),
        lone_ok(t, p, 0, pair, in_ready),
        ready_ok(t, p, s, pair, in_ready),
{
    if pair.0 == pair.1 {
        assert(sole(s, lit_var(pair.0)));
    }
    if in_ready {
        let x = choose|x: nat| #[trigger] sole(s, x);
        assert(s.vars.contains(lit_var(pair.0)));
        assert(lit_var(pair.0) == x);
        assert(unit_of(t, p, s, pair.0));
    }
}

/// A slot that is freed leaves the invariant intact.
pub proof fn lemma_freed(
    t: Seq<TrailEntry>,
    p: Seq<Option<usize>>,
    level: usize,
    sh: Seq<Option<Shape>>,
    pairs: Seq<Option<(int, int)>>,
    sh2: Seq<Option<Shape>>,
    pairs2: Seq<Option<(int, int)>>,
    ready: Set<nat>,
    idx: int,
)
    requires
        settled_all(t, p, level, sh, pairs, ready),
        0 <= idx < sh.len(),
        sh2.len() == sh.len(),
        sh2[idx] is None,
        forall|k: int| 0 <= k < sh.len() && k != idx ==> sh2[k] == sh[k] && pairs2[k] == pairs[k],
    ensures
        settled_all(t, p, level, sh2, pairs2, ready),
{
    reveal(settled_all);
    assert forall|k: int| 0 <= k < sh2.len() implies #[trigger] settled_at(
        t,
        p,
        level,
        sh2,
        pairs2,
        ready,
        k,
    ) by {
        assert(settled_at(t, p, level, sh, pairs, ready, k));
    }
}

/// The invariant implies what is left of it after a conflict.
pub proof fn lemma_settled_loose(
    t: Seq<TrailEntry>,
    p: Seq<Option<usize>>,
    level: usize,
    sh: Seq<Option<Shape>>,
    pairs: Seq<Option<(int, int)>>,
    ready: Set<nat>,
)
    requires
        settled_all(t, p, level, sh, pairs, ready),
    ensures
        loose_all(t, p, level, sh, pairs),
{
    reveal(settled_all);
    reveal(loose_all);
    assert forall|k: int| 0 <= k < sh.len() implies #[trigger] loose_at(t, p, level, sh, pairs, k) by {
        assert(settled_at(t, p, level, sh, pairs, ready, k));
    }
}

/// The watched-literals invariant at work: a stored clause that is
/// neither satisfied nor ready is watched by two different literals of
/// it, neither of them false.
pub proof fn lemma_two_watchers(
    t: Seq<TrailEntry>,
    p: Seq<Option<usize>>,
    level: usize,
    sh: Seq<Option<Shape>>,
    pairs: Seq<Option<(int, int)>>,
    ready: Set<nat>,
    k: int,
)
    requires
        trail_ok(t, p, level),
        settled_all(t, p, level, sh, pairs, ready),
        pairs_sound(sh, pairs),
        0 <= k < sh.len(),
        sh[k] is Some,
        !satisfied(t, p, sh[k].unwrap()),
        !ready.contains(k as nat),
    ensures
        pairs[k] is Some,
        pairs[k].unwrap().0 != pairs[k].unwrap().1,
        !is_false(t, p, pairs[k].unwrap().0),
        !is_false(t, p, pairs[k].unwrap().1),
        level_of(t, p, lit_var(pairs[k].unwrap().0)) is None,
        level_of(t, p, lit_var(pairs[k].unwrap().1)) is None,
{
    reveal(settled_all);
    assert(settled_at(t, p, level, sh, pairs, ready, k));
    let s = sh[k].unwrap();
    let pair = pairs[k].unwrap();
    assert(pair_lits(s, pair));
    assert forall|w: int| (w == pair.0 || w == pair.1) implies !is_false(t, p, w) && level_of(
        t,
        p,
        lit_var(w),
    ) is None by {
        if is_false(t, p, w) {
            let u = choose|u: nat| #[trigger] held(t, p, s, u, level_at(t, p, w));
            assert(held(t, p, s, u, usize::MAX));
        }
        if level_of(t, p, lit_var(w)) is Some {
            assert(held(t, p, s, lit_var(w), usize::MAX));
        }
    }
    if pair.0 == pair.1 {
        assert(false);
    }
}

/// A clause that watches the literal just made false by a decision
/// taken while no clause was ready is not left with every literal
/// false: its other watched literal is unassigned or true.
pub proof fn lemma_decided_not_stuck(
    t: Seq<TrailEntry>,
    p: Seq<Option<usize>>,
    level: usize,
    t2: Seq<TrailEntry>,
    p2: Seq<Option<usize>>,
    level2: usize,
    e: TrailEntry,
    sh: Seq<Option<Shape>>,
    pairs: Seq<Option<(int, int)>>,
    ready2: Set<nat>,
    c: int,
)
    requires
        trail_ok(t, p, level),
        pushed(t, p, t2, p2, e),
        e.decision_level == level2,
        level2 == level + 1,
        0 <= c < sh.len(),
        sh[c] is Some,
        pairs[c] is Some,
        pair_lits(sh[c].unwrap(), pairs[c].unwrap()),
        pairs[c].unwrap().0 == -e.literal.as_int() || pairs[c].unwrap().1 == -e.literal.as_int(),
        pending_at(t2, p2, level2, sh, pairs, ready2, -e.literal.as_int(), set![c], c),
    ensures
        !falsified(t2, p2, sh[c].unwrap()),
{
    let s = sh[c].unwrap();
    let pair = pairs[c].unwrap();
    let l = e.literal.as_int();
    let f = -l;
    let v = entry_var(e);
    lemma_pushed(t, p, level, t2, p2, e, v);
    if falsified(t2, p2, s) {
        assert(set![c].contains(c));
        if pair.0 == pair.1 {
            assert(false);
        }
        let b = if pair.0 == f {
            pair.1
        } else {
            pair.0
        };
        assert(b != f);
        assert(s.vars.contains(lit_var(b)));
        assert(false_at(t2, p2, s.negs, lit_var(b), t2.len() as int));
        assert(is_false(t2, p2, b));
        assert(excused(t2, p2, level2, s, ready2.contains(c as nat), b));
        if exists|u: nat| #[trigger] held(t2, p2, s, u, level_at(t2, p2, b)) {
            let u = choose|u: nat| #[trigger] held(t2, p2, s, u, level_at(t2, p2, b));
            assert(false_at(t2, p2, s.negs, u, t2.len() as int));
            assert(false);
        } else {
            assert(level_at(t2, p2, b) == level2);
            lemma_pushed(t, p, level, t2, p2, e, lit_var(b));
            if lit_var(b) != v {
                lemma_levels_bounded(t, p, level, lit_var(b));
                assert(false);
            }
            assert(b == l);
            assert(false);
        }
    }
}

/// On a trail without entries the invariant does not depend on the
/// position index.
pub proof fn lemma_empty_trail(
    t: Seq<TrailEntry>,
    p: Seq<Option<usize>>,
    p2: Seq<Option<usize>>,
    level: usize,
    sh: Seq<Option<Shape>>,
    pairs: Seq<Option<(int, int)>>,
    ready: Set<nat>,
)
    requires
        t.len() == 0,
        settled_all(t, p, level, sh, pairs, ready),
    ensures
        settled_all(t, p2, level, sh, pairs, ready),
{
    reveal(settled_all);
    assert forall|k: int| 0 <= k < sh.len() implies #[trigger] settled_at(
        t,
        p2,
        level,
        sh,
        pairs,
        ready,
        k,
    ) by {
        assert(settled_at(t, p, level, sh, pairs, ready, k));
        if sh[k] is Some {
            let s = sh[k].unwrap();
            let pair = pairs[k].unwrap();
            assert(!satisfied(t, p, s)) by {
                if satisfied(t, p, s) {
                    let u = choose|u: nat| #[trigger] held(t, p, s, u, usize::MAX);
                }
            }
            assert(!satisfied(t, p2, s)) by {
                if satisfied(t, p2, s) {
                    let u = choose|u: nat| #[trigger] held(t, p2, s, u, usize::MAX);
                }
            }
            assert forall|l: int| unit_of(t, p, s, l) == unit_of(t, p2, s, l) by {
                if unit_of(t, p, s, l) {
                    assert forall|u: nat| #[trigger]
                        s.vars.contains(u) && u != lit_var(l) implies false_at(
                        t,
                        p2,
                        s.negs,
                        u,
                        t.len() as int,
                    ) by {
                        assert(false_at(t, p, s.negs, u, t.len() as int));
                    }
                }
                if unit_of(t, p2, s, l) {
                    assert forall|u: nat| #[trigger]
                        s.vars.contains(u) && u != lit_var(l) implies false_at(
                        t,
                        p,
                        s.negs,
                        u,
                        t.len() as int,
                    ) by {
                        assert(false_at(t, p2, s.negs, u, t.len() as int));
                    }
                }
            }
        }
    }
}

/// What a clause derived from a conflict is like after the trail is cut
/// back to the second highest of its levels: no literal of it is true,
/// one at least is unassigned, an assigned one, if there is any, is of
/// the level that is now current, and a clause of one literal finds the
/// trail at level zero.
pub proof fn lemma_cut_fits(
    t: Seq<TrailEntry>,
    p: Seq<Option<usize>>,
    level: usize,
    t2: Seq<TrailEntry>,
    p2: Seq<Option<usize>>,
    level2: usize,
    n: int,
    top: usize,
    below: usize,
    s: Shape,
)
    requires
        trail_ok(t, p, level),
        trail_ok(t2, p2, level2),
        0 <= n <= t.len(),
        t2 == t.take(n),
        p2.len() == p.len(),
        forall|i: int| 0 <= i < n ==> (#[trigger] t[i]).decision_level <= below,
        forall|i: int| n <= i < t.len() ==> (#[trigger] t[i]).decision_level > below,
        falsified(t, p, s),
        highest(s.vars, t, p, top),
        next_below(s.vars, t, p, top, below),
        top >= 1,
    ensures
        !satisfied(t2, p2, s),
        exists|u: nat| #[trigger] s.vars.contains(u) && level_of(t2, p2, u) is None,
        forall|u: nat| #[trigger]
            s.vars.contains(u) && level_of(t2, p2, u) is Some ==> false_at(
                t2,
                p2,
                s.negs,
                u,
                t2.len() as int,
            ),
        (exists|u: nat| #[trigger] s.vars.contains(u) && level_of(t2, p2, u) is Some) ==> exists|
            u: nat,
        | #[trigger] s.vars.contains(u) && level_of(t2, p2, u) == Some(level2),
        lone(s) ==> level2 == 0,
        level2 <= below,
{
    reveal(trail_ok);
    assert forall|u: nat| #[trigger] s.vars.contains(u) && level_of(t2, p2, u) is Some implies false_at(
        t2,
        p2,
        s.negs,
        u,
        t2.len() as int,
    ) by {
        lemma_taken(t, p, level, t2, p2, level2, n, u);
        assert(false_at(t, p, s.negs, u, t.len() as int));
    }
    if satisfied(t2, p2, s) {
        let u = choose|u: nat| #[trigger] held(t2, p2, s, u, usize::MAX);
        assert(false_at(t2, p2, s.negs, u, t2.len() as int));
    }
    let x = choose|x: nat| #[trigger] s.vars.contains(x) && level_of(t, p, x) == Some(top);
    lemma_taken(t, p, level, t2, p2, level2, n, x);
    let ix = p[x as int].unwrap() as int;
    if ix < n {
        assert(t[ix].decision_level <= below);
    }
    assert(s.vars.contains(x) && level_of(t2, p2, x) is None);
    if n > 0 {
        assert(t[n - 1].decision_level <= below);
        assert(t2[n - 1] == t[n - 1]);
    }
    if exists|u: nat| #[trigger] s.vars.contains(u) && level_of(t2, p2, u) is Some {
        let u = choose|u: nat| #[trigger] s.vars.contains(u) && level_of(t2, p2, u) is Some;
        lemma_taken(t, p, level, t2, p2, level2, n, u);
        let iu = p[u as int].unwrap() as int;
        assert(t[iu].decision_level <= below);
        if below >= 1 {
            let y = choose|y: nat| #[trigger] s.vars.contains(y) && level_of(t, p, y) == Some(below);
            lemma_taken(t, p, level, t2, p2, level2, n, y);
            let iy = p[y as int].unwrap() as int;
            assert(iy < t.len());
            if iy >= n {
                assert(t[iy].decision_level > below);
            }
            assert(t2[iy].decision_level <= t2[n - 1].decision_level);
            assert(s.vars.contains(y) && level_of(t2, p2, y) == Some(level2));
        } else {
            assert(t2[iu].decision_level <= t2[n - 1].decision_level);
            assert(s.vars.contains(u) && level_of(t2, p2, u) == Some(level2));
        }
    }
    if lone(s) {
        let z = choose|z: nat| #[trigger] sole(s, z);
        assert(z == x);
        if below >= 1 {
            let y = choose|y: nat| #[trigger] s.vars.contains(y) && level_of(t, p, y) == Some(below);
            assert(y == x);
            assert(false);
        }
    }
}

} // verus!
