//! A complete search by enumeration: every assignment of the variables
//! is tried in turn. The solver falls back on it where the search by
//! clause learning runs out of room or of steps, so that every formula
//! is decided.

use crate::sat::{
    clause_holds, clause_vars, formula_holds, formula_vars, lit_holds, lit_var, unsatisfiable,
};
use vstd::prelude::*;

verus! {

/// The assignment that makes true exactly the variables whose value in
/// `values` is true.
pub open spec fn assigns(values: Seq<bool>) -> Set<nat> {
    Set::new(|v: nat| v < values.len() && values[v as int])
}

/// Whether every literal of the clause is a non-zero number that can be
/// negated, of a variable below `n`.
pub open spec fn clause_within(c: Seq<isize>, n: nat) -> bool {
    forall|j: int|
        0 <= j < c.len() ==> #[trigger] c[j] != 0 && c[j] > isize::MIN && lit_var(c[j] as int) < n
}

/// Whether every clause of the formula is within `n`.
pub open spec fn within(f: Seq<Seq<isize>>, n: nat) -> bool {
    forall|i: int| 0 <= i < f.len() ==> clause_within(#[trigger] f[i], n)
}

/// Whether the two assignments give every variable below `n` the same
/// value.
pub open spec fn alike(a: Set<nat>, b: Set<nat>, n: nat) -> bool {
    forall|v: nat| v < n ==> a.contains(v) == b.contains(v)
}

/// Two assignments that agree on the variables of a formula make the
/// same of it.
pub proof fn lemma_same_on_vars(f: Seq<Seq<isize>>, a: Set<nat>, b: Set<nat>)
    requires
        forall|v: nat| formula_vars(f).contains(v) ==> a.contains(v) == b.contains(v),
    ensures
        formula_holds(a, f) == formula_holds(b, f),
{
    assert forall|i: int| 0 <= i < f.len() implies clause_holds(a, #[trigger] f[i]) == clause_holds(
        b,
        f[i],
    ) by {
        let c = f[i];
        assert forall|j: int| 0 <= j < c.len() implies lit_holds(a, #[trigger] c[j] as int)
            == lit_holds(b, c[j] as int) by {
            assert(clause_vars(c).contains(lit_var(c[j] as int)));
            assert(formula_vars(f).contains(lit_var(c[j] as int)));
        }
        if clause_holds(a, c) {
            let j = choose|j: int| 0 <= j < c.len() && lit_holds(a, #[trigger] c[j] as int);
            assert(lit_holds(b, c[j] as int));
        }
        if clause_holds(b, c) {
            let j = choose|j: int| 0 <= j < c.len() && lit_holds(b, #[trigger] c[j] as int);
            assert(lit_holds(a, c[j] as int));
        }
    }
}

/// The variables of a formula within `n` lie below `n`.
pub proof fn lemma_vars_within(f: Seq<Seq<isize>>, n: nat)
    requires
        within(f, n),
    ensures
        forall|v: nat| formula_vars(f).contains(v) ==> v < n,
{
    assert forall|v: nat| formula_vars(f).contains(v) implies v < n by {
        let i = choose|i: int| 0 <= i < f.len() && clause_vars(#[trigger] f[i]).contains(v);
        let j = choose|j: int| 0 <= j < f[i].len() && lit_var(#[trigger] f[i][j] as int) == v;
        assert(clause_within(f[i], n));
    }
}

/// Whether the clause is true under the values.
pub fn clause_true(c: &Vec<isize>, values: &Vec<bool>) -> (r: bool)
    requires
        clause_within(c@, values@.len()),
    ensures
        r == clause_holds(assigns(values@), c@),
{
    let mut j: usize = 0;
    while j < c.len()
        invariant
            j <= c@.len(),
            clause_within(c@, values@.len()),
            forall|t: int| 0 <= t < j ==> !lit_holds(assigns(values@), #[trigger] c@[t] as int),
        decreases c@.len() - j,
    {
        let l: isize = c[j];
        let v: usize = if l < 0 {
            (-l) as usize
        } else {
            l as usize
        };
        if values[v] == (l > 0) {
            assert(lit_holds(assigns(values@), c@[j as int] as int));
            return true;
        }
        j = j + 1;
    }
    false
}

/// Whether every clause of the formula is true under the values.
pub fn formula_true(f: &Vec<Vec<isize>>, values: &Vec<bool>) -> (r: bool)
    requires
        within(f.deep_view(), values@.len()),
    ensures
        r == formula_holds(assigns(values@), f.deep_view()),
{
    let mut i: usize = 0;
    while i < f.len()
        invariant
            i <= f@.len(),
            within(f.deep_view(), values@.len()),
            forall|t: int| 0 <= t < i ==> clause_holds(assigns(values@), #[trigger] f.deep_view()[t]),
        decreases f@.len() - i,
    {
        assert(f.deep_view()[i as int] == f@[i as int]@);
        assert(clause_within(f.deep_view()[i as int], values@.len()));
        if !clause_true(&f[i], values) {
            return false;
        }
        i = i + 1;
    }
    assert(f.deep_view().len() == f@.len());
    true
}

/// Tries every assignment that agrees with the values below `k`: true
/// where one of them makes the formula true, and the values are then
/// such an assignment.
pub fn search(f: &Vec<Vec<isize>>, values: &mut Vec<bool>, k: usize) -> (r: bool)
    requires
        within(f.deep_view(), old(values)@.len()),
        k <= old(values)@.len(),
    ensures
        final(values)@.len() == old(values)@.len(),
        forall|v: int| 0 <= v < k ==> final(values)@[v] == old(values)@[v],
        r ==> formula_holds(assigns(final(values)@), f.deep_view()),
        !r ==> forall|m: Set<nat>|
            alike(m, assigns(old(values)@), k as nat) ==> !#[trigger] formula_holds(m, f.deep_view()),
    decreases old(values)@.len() - k,
{
    let ghost start = values@;
    if k == values.len() {
        let r = formula_true(f, values);
        proof {
            if !r {
                lemma_vars_within(f.deep_view(), values@.len() as nat);
                assert forall|m: Set<nat>| alike(m, assigns(start), k as nat) implies !#[trigger] formula_holds(
                    m,
                    f.deep_view(),
                ) by {
                    lemma_same_on_vars(f.deep_view(), m, assigns(start));
                }
            }
        }
        return r;
    }
    values.set(k, true);
    let ghost first = values@;
    if search(f, values, k + 1) {
        return true;
    }
    values.set(k, false);
    let ghost second = values@;
    let r = search(f, values, k + 1);
    proof {
        if !r {
            assert forall|m: Set<nat>| alike(m, assigns(start), k as nat) implies !#[trigger] formula_holds(
                m,
                f.deep_view(),
            ) by {
                if m.contains(k as nat) {
                    assert(alike(m, assigns(first), (k + 1) as nat));
                } else {
                    assert(alike(m, assigns(second), (k + 1) as nat));
                }
            }
        }
    }
    r
}

/// Decides the formula by enumeration over the variables below `top`:
/// values that make it true, or nothing where no assignment does.
pub fn decide(f: &Vec<Vec<isize>>, top: usize) -> (r: Option<Vec<bool>>)
    requires
        within(f.deep_view(), top as nat),
    ensures
        match r {
            Some(values) => values@.len() == top && formula_holds(assigns(values@), f.deep_view()),
            None => unsatisfiable(f.deep_view()),
        },
{
    let mut values: Vec<bool> = Vec::new();
    while values.len() < top
        invariant
            values@.len() <= top,
        decreases top - values@.len(),
    {
        values.push(false);
    }
    let ghost start = values@;
    if search(f, &mut values, 0) {
        Some(values)
    } else {
        proof {
            assert forall|m: Set<nat>| !formula_holds(m, f.deep_view()) by {
                assert(alike(m, assigns(start), 0));
            }
        }
        None
    }
}

} // verus!
