use pror::bitset::{BTreeBitSet, BitSetT};
use pror::cdcl::{RandomConfig, State};
use pror::engine::{count_distinct, weakest_half};
use pror::exhaustive::{clause_true, decide, formula_true};
use pror::fixed_bitset::DefaultBitSet as BitSet;
use pror::fixed_bitset::{BTreeMapStorage, BlockStorage, DefaultMapBitSet};
use pror::luby::{luby_term, Luby};
use pror::pool::Pool;
use pror::sat::{Clause, Formula, Literal, SatResult, StepResult};
use pror::tombstone::TombStone;
use std::collections::BTreeMap;

fn satisfies(formula: &[Vec<isize>], model: &BTreeMap<usize, bool>) -> bool {
    formula.iter().all(|clause| {
        clause.iter().any(|&lit| model.get(&lit.unsigned_abs()) == Some(&(lit > 0)))
    })
}

fn brute_force(formula: &[Vec<isize>], vars: usize) -> bool {
    (0u32..(1u32 << vars)).any(|bits| {
        formula.iter().all(|clause| {
            clause.iter().any(|&lit| {
                let value = (bits >> (lit.unsigned_abs() - 1)) & 1 == 1;
                value == (lit > 0)
            })
        })
    })
}

fn next(seed: &mut u64) -> u64 {
    *seed = seed.wrapping_mul(6364136223846793005).wrapping_add(1442695040888963407);
    *seed >> 33
}

fn random_formula(seed: &mut u64, vars: usize, clauses: usize, width: usize) -> Vec<Vec<isize>> {
    let mut formula = Vec::new();
    for _ in 0..clauses {
        let mut clause = Vec::new();
        let len = 1 + (next(seed) as usize) % width;
        for _ in 0..len {
            let var = 1 + (next(seed) as usize) % vars;
            let lit = if next(seed) % 2 == 0 { var as isize } else { -(var as isize) };
            clause.push(lit);
        }
        formula.push(clause);
    }
    formula
}

#[test]
fn sat_answers_are_models_and_unsat_answers_have_none() {
    let mut seed = 7u64;
    for round in 0..400 {
        let vars = 3 + round % 6;
        let formula = random_formula(&mut seed, vars, 4 + round % 20, 3);
        match pror::cdcl::Default::solve(formula.clone()) {
            SatResult::Sat(model) => assert!(satisfies(&formula, &model), "{:?}", formula),
            SatResult::Unsat => assert!(!brute_force(&formula, vars), "{:?}", formula),
        }
    }
}

#[test]
fn random_branching_gives_right_answers_too() {
    let mut seed = 99u64;
    for round in 0..200 {
        let vars = 3 + round % 6;
        let formula = random_formula(&mut seed, vars, 4 + round % 20, 3);
        match State::<RandomConfig>::solve(formula.clone()) {
            SatResult::Sat(model) => assert!(satisfies(&formula, &model), "{:?}", formula),
            SatResult::Unsat => assert!(!brute_force(&formula, vars), "{:?}", formula),
        }
    }
}

#[test]
fn a_model_covers_every_variable_of_the_formula() {
    let formula = vec![vec![1, -1], vec![5, 3], vec![-3]];
    match pror::cdcl::Default::solve(formula) {
        SatResult::Sat(model) => {
            let keys: Vec<usize> = model.keys().copied().collect();
            assert_eq!(keys, vec![1, 3, 5]);
            assert_eq!(model[&3], false);
            assert_eq!(model[&5], true);
        }
        other => panic!("{:?}", other),
    }
}

#[test]
fn a_tautology_does_not_constrain_its_variable() {
    let formula = vec![vec![1, -1], vec![1]];
    match pror::cdcl::Default::solve(formula) {
        SatResult::Sat(model) => assert_eq!(model[&1], true),
        other => panic!("{:?}", other),
    }
}

#[test]
fn satisfiable_formula_of_the_scenarios_has_a_verified_model() {
    let formula = vec![vec![1, 2], vec![-2, 3], vec![-1, -3]];
    match pror::cdcl::Default::solve(formula.clone()) {
        SatResult::Sat(model) => assert!(satisfies(&formula, &model)),
        other => panic!("{:?}", other),
    }
}

fn pigeonhole(pigeons: usize, holes: usize) -> Vec<Vec<isize>> {
    let var = |p: usize, h: usize| (p * holes + h + 1) as isize;
    let mut formula = Vec::new();
    for p in 0..pigeons {
        formula.push((0..holes).map(|h| var(p, h)).collect());
    }
    for h in 0..holes {
        for p in 0..pigeons {
            for q in (p + 1)..pigeons {
                formula.push(vec![-var(p, h), -var(q, h)]);
            }
        }
    }
    formula
}

#[test]
fn pigeonhole_instances_are_decided() {
    match pror::cdcl::Default::solve(pigeonhole(5, 4)) {
        SatResult::Unsat => {}
        other => panic!("{:?}", other),
    }
    let formula = pigeonhole(4, 4);
    match pror::cdcl::Default::solve(formula.clone()) {
        SatResult::Sat(model) => assert!(satisfies(&formula, &model)),
        other => panic!("{:?}", other),
    }
}

#[test]
fn search_with_many_conflicts_restarts_and_still_answers() {
    let formula = pigeonhole(7, 6);
    match pror::cdcl::Default::solve(formula) {
        SatResult::Unsat => {}
        other => panic!("{:?}", other),
    }
}

#[test]
fn adding_a_clause_answers_as_a_fresh_solver_does() {
    let mut seed = 1234u64;
    for round in 0..150 {
        let vars = 3 + round % 5;
        let formula = random_formula(&mut seed, vars, 3 + round % 12, 3);
        let extra = random_formula(&mut seed, vars, 1, 3).pop().unwrap();
        let mut solver = pror::cdcl::Default::create(formula.clone());
        let _ = solver.run();
        solver.add_clause(extra.clone());
        let incremental = solver.run();
        let mut whole = formula.clone();
        whole.push(extra);
        let fresh = pror::cdcl::Default::solve(whole.clone());
        match (&incremental, &fresh) {
            (SatResult::Sat(a), SatResult::Sat(b)) => {
                assert!(satisfies(&whole, a));
                assert!(satisfies(&whole, b));
            }
            (SatResult::Unsat, SatResult::Unsat) => {}
            other => panic!("{:?} on {:?}", other, whole),
        }
    }
}

#[test]
fn runs_under_assumptions_leave_the_solver_as_good_as_new() {
    let mut seed = 4321u64;
    for round in 0..150 {
        let vars = 3 + round % 5;
        let formula = random_formula(&mut seed, vars, 3 + round % 12, 3);
        let mut solver = pror::cdcl::Default::create(formula.clone());
        for _ in 0..3 {
            let assumptions = random_formula(&mut seed, vars, 1, 3).pop().unwrap();
            match solver.run_with_assumptions(&assumptions) {
                SatResult::Sat(model) => {
                    assert!(satisfies(&formula, &model));
                    for a in &assumptions {
                        assert_eq!(model.get(&a.unsigned_abs()), Some(&(*a > 0)));
                    }
                }
                SatResult::Unsat => {
                    let mut with: Vec<Vec<isize>> = formula.clone();
                    for a in &assumptions {
                        with.push(vec![*a]);
                    }
                    assert!(!brute_force(&with, vars), "{:?} under {:?}", formula, assumptions);
                }
            }
        }
        let after = solver.run();
        let fresh = pror::cdcl::Default::solve(formula.clone());
        match (&after, &fresh) {
            (SatResult::Sat(a), SatResult::Sat(_)) => assert!(satisfies(&formula, a)),
            (SatResult::Unsat, SatResult::Unsat) => {}
            other => panic!("{:?} on {:?}", other, formula),
        }
    }
}

#[test]
fn an_assumption_against_a_forced_literal_is_refused_and_the_solver_stays_usable() {
    let mut solver = pror::cdcl::Default::create(vec![vec![1], vec![-1, 2]]);
    assert!(matches!(solver.run_with_assumptions(&[-2]), SatResult::Unsat));
    assert!(matches!(solver.run_with_assumptions(&[2]), SatResult::Sat(_)));
    assert!(matches!(solver.run(), SatResult::Sat(_)));
}

#[test]
fn an_assumption_on_an_unknown_variable_is_passed_over() {
    let mut solver = pror::cdcl::Default::create(vec![vec![1]]);
    assert!(matches!(solver.run_with_assumptions(&[9]), SatResult::Sat(_)));
    assert!(matches!(solver.run_with_assumptions(&[-9]), SatResult::Sat(_)));
}

#[test]
fn a_step_override_on_an_assigned_variable_is_passed_over() {
    let mut solver = pror::cdcl::Default::create(vec![vec![1], vec![2, 3]]);
    let mut done = None;
    for _ in 0..10 {
        match solver.step(Some(Literal::new(1, false))) {
            pror::sat::StepResult::Done(res) => {
                done = Some(res);
                break;
            }
            pror::sat::StepResult::Continue => {}
        }
    }
    match done {
        Some(SatResult::Sat(model)) => assert_eq!(model[&1], true),
        other => panic!("{:?}", other),
    }
}

#[test]
fn only_the_debug_configurations_keep_a_trace() {
    let formula = vec![vec![1, 2], vec![-1]];
    let quiet = pror::cdcl::Default::new_from_vec_with_debug_writer(
        formula.clone(),
        Some(String::new()),
    );
    assert_eq!(quiet.debug_trace(), None);
    let loud = pror::cdcl::DefaultDebug::new_from_vec_with_debug_writer(formula, Some(String::new()));
    assert_eq!(
        loud.debug_trace().unwrap(),
        "adding watched literals 1 and 2 for clause (\"(1 2)\")\nadding watched literal -1 for unit clause (\"(-1)\")\n"
    );
}

#[test]
fn set_then_contains_and_set_clear_then_not() {
    for i in [0usize, 1, 63, 64, 65, 1000] {
        let mut b = BitSet::new(0);
        b.set(i);
        assert!(b.contains(i));
        b.clear(i);
        assert!(!b.contains(i));
        let mut t = BTreeBitSet::create();
        t.set(i);
        assert!(t.contains(i));
        t.clear(i);
        assert!(!t.contains(i));
    }
}

#[test]
fn count_is_the_number_whose_latest_change_was_set() {
    let mut seed = 5u64;
    let mut b = BitSet::new(0);
    let mut t = BTreeBitSet::create();
    let mut latest: BTreeMap<usize, bool> = BTreeMap::new();
    for _ in 0..2000 {
        let i = (next(&mut seed) % 300) as usize;
        if next(&mut seed) % 3 == 0 {
            b.clear(i);
            t.clear(i);
            latest.insert(i, false);
        } else {
            b.set(i);
            t.set(i);
            latest.insert(i, true);
        }
        let want = latest.values().filter(|v| **v).count();
        assert_eq!(b.count(), want);
        assert_eq!(t.count(), want);
    }
}

#[test]
fn nth_is_the_member_with_that_many_smaller_ones() {
    let mut b = BitSet::new(0);
    let mut t = BTreeBitSet::create();
    let members = [3usize, 64, 65, 127, 128, 129, 500];
    for &m in &members {
        b.set(m);
        t.set(m);
    }
    for (k, &m) in members.iter().enumerate() {
        assert_eq!(b.nth(k), Some(m));
        assert_eq!(t.nth(k), Some(m));
    }
    assert_eq!(b.nth(members.len()), None);
    assert_eq!(t.nth(members.len()), None);
}

#[test]
fn both_sets_agree_on_every_query() {
    let mut seed = 11u64;
    for _ in 0..60 {
        let mut a = BitSet::new(0);
        let mut b = BitSet::new(0);
        let mut ta = BTreeBitSet::create();
        let mut tb = BTreeBitSet::create();
        for _ in 0..40 {
            let x = (next(&mut seed) % 400) as usize;
            let y = (next(&mut seed) % 400) as usize;
            a.set(x);
            ta.set(x);
            b.set(y);
            tb.set(y);
        }
        for ge in [0usize, 1, 63, 64, 65, 200, 399, 400, 1000] {
            let naive = (ge..401).find(|&i| a.contains(i) && b.contains(i));
            assert_eq!(a.intersect_first_set_ge(&b, ge), naive);
            assert_eq!(BitSetT::intersect_first_set_ge(&ta, &tb, ge), naive);
            assert_eq!(a.first_set_ge(ge), ta.first_set_ge(ge));
            assert_eq!(a.iter_intersection_ge(&b, ge), (ge..401).filter(|&i| a.contains(i) && b.contains(i)).collect::<Vec<_>>());
        }
        assert_eq!(a.intersect_first_set(&b), BitSetT::intersect_first_set(&ta, &tb));
        assert_eq!(a.iter(), ta.iter());
        assert_eq!(a.iter_union(&b), ta.iter_union(&tb));
        assert_eq!(a.iter_intersection(&b), ta.iter_intersection(&tb));
        assert_eq!(a.iter_difference(&b), ta.iter_difference(&tb));
        assert_eq!(a.count(), ta.count());
        assert_eq!(a.first_set(), ta.first_set());
        assert_eq!(BitSetT::is_empty(&ta), a.is_empty());
        let mut u = BitSet::new(0);
        u.union_with(&a);
        u.union_with(&b);
        let mut tu = BTreeBitSet::create();
        tu.union_with(&ta);
        tu.union_with(&tb);
        assert_eq!(u.iter(), tu.iter());
        let mut i = BitSet::new(0);
        i.intersect(&a, &b);
        let mut ti = BTreeBitSet::create();
        ti.intersect(&ta, &tb);
        assert_eq!(i.iter(), ti.iter());
        let mut d = BitSet::new(0);
        d.union_with(&a);
        d.difference_with(&b);
        let mut td = BTreeBitSet::create();
        td.union_with(&ta);
        td.difference_with(&tb);
        assert_eq!(d.iter(), td.iter());
        let mut w = BitSet::new(0);
        w.union_with(&a);
        w.intersect_with(&b);
        let mut tw = BTreeBitSet::create();
        tw.union_with(&ta);
        tw.intersect_with(&tb);
        assert_eq!(w.iter(), tw.iter());
    }
}

#[test]
fn capacity_grows_and_never_shrinks() {
    let mut b = BitSet::new(1);
    assert_eq!(b.capacity(), 64);
    b.grow(65);
    assert_eq!(b.capacity(), 128);
    b.grow(3);
    assert_eq!(b.capacity(), 128);
    b.set(128);
    assert_eq!(b.capacity(), 192);
    b.clear(128);
    b.clear_all();
    assert_eq!(b.capacity(), 192);
    assert!(!b.contains(100000));
    b.clear(100000);
    assert_eq!(b.capacity(), 192);
}

#[test]
fn capacity_of_the_tree_set_is_one_past_its_largest_member() {
    let mut t = BTreeBitSet::create();
    assert_eq!(t.capacity(), 0);
    t.set(9);
    t.set(4);
    assert_eq!(t.capacity(), 10);
    t.grow(1000);
    assert_eq!(t.capacity(), 10);
    assert_eq!(t.first_unset_ge(4), Some(5));
    assert_eq!(t.first_unset(), Some(0));
    t.set_between(0, 4);
    assert_eq!(t.first_unset(), Some(5));
}

#[test]
fn first_unset_of_a_full_set_is_its_capacity() {
    let mut b = BitSet::new(0);
    b.set_between(0, 64);
    assert_eq!(b.first_unset(), Some(64));
    b.set_between(0, 128);
    assert_eq!(b.first_unset(), Some(128));
    assert_eq!(b.first_unset_ge(64), Some(128));
    assert_eq!(b.first_unset_ge(500), Some(500));
    assert_eq!(b.count(), 128);
    b.clear(127);
    assert_eq!(b.first_unset_ge(3), Some(127));
    let mut t = BTreeBitSet::create();
    t.set_between(0, 64);
    assert_eq!(t.first_unset(), Some(64));
}

#[test]
fn set_between_of_an_empty_range_changes_nothing() {
    let mut b = BitSet::new(0);
    b.set_between(7, 7);
    b.set_between(9, 2);
    assert!(b.is_empty());
    assert_eq!(b.capacity(), 0);
}

#[test]
fn pop_first_set_takes_members_in_ascending_order() {
    let mut b = BitSet::new(0);
    for i in [70usize, 3, 64] {
        b.set(i);
    }
    assert_eq!(b.pop_first_set(), Some(3));
    assert_eq!(b.pop_first_set(), Some(64));
    assert_eq!(b.pop_first_set(), Some(70));
    assert_eq!(b.pop_first_set(), None);
}

#[test]
fn luby_sequence_starts_as_written() {
    let want = [1u64, 1, 2, 1, 1, 2, 4, 1, 1, 2, 1, 1, 2, 4, 8, 1];
    for (i, w) in want.iter().enumerate() {
        assert_eq!(luby_term(i as u64 + 1), *w);
    }
    assert_eq!(luby_term(u64::MAX), 1u64 << 63);
}

#[test]
fn luby_schedule_scales_and_advances() {
    let mut l = Luby::new(32);
    assert_eq!(l.value(), 32);
    assert_eq!(l.next(), Some(32));
    assert_eq!(l.next(), Some(64));
    assert_eq!(l.value(), 64);
    let mut big = Luby::new(u64::MAX);
    assert_eq!(big.next(), Some(u64::MAX));
    assert_eq!(big.next(), Some(u64::MAX));
}

#[test]
fn pool_hands_out_the_latest_release_first() {
    let mut pool: Pool<u32> = Pool::with_capacity(4);
    assert!(pool.is_empty());
    assert_eq!(pool.acquire(|| 7), 7);
    pool.release(1);
    pool.release(2);
    assert_eq!(pool.len(), 2);
    assert_eq!(pool.acquire(|| 7), 2);
    assert_eq!(pool.acquire(|| 7), 1);
    assert!(pool.is_empty());
    let fresh: Pool<u32> = Pool::default();
    assert_eq!(fresh.len(), 0);
}

#[test]
fn tombstone_slots_tell_live_from_freed() {
    let mut live = TombStone::new(3, 'x');
    assert_eq!(*live.generation(), 3);
    assert_eq!(live.value(), Some(&'x'));
    assert_eq!(*live.value_exn(), 'x');
    *live.value_mut_exn() = 'y';
    assert_eq!(live.value_mut(), Some(&mut 'y'));
    *live.generation_mut() += 1;
    assert_eq!(*live.generation(), 4);
    let mut freed: TombStone<char> = TombStone::TombStone(9, Some(2));
    assert_eq!(freed.value(), None);
    assert_eq!(freed.value_mut(), None);
    assert_eq!(freed.tombstone_idx_exn(), Some(2));
    assert_eq!(*freed.generation(), 9);
}

#[test]
fn literals_keep_variable_and_polarity() {
    let l = Literal::new(5, false);
    assert_eq!(l.variable(), 5);
    assert!(!l.value());
    assert_eq!(l.to_isize(), -5);
    let n = l.negate();
    assert_eq!(n.variable(), 5);
    assert!(n.value());
    assert_eq!(n, Literal::new(5, true));
}

#[test]
fn formula_drops_tautologies_and_duplicates() {
    let mut pool: Pool<BitSet> = Pool::new();
    let f = Formula::new(vec![vec![1, 2, 2, -3], vec![4, -4], vec![], vec![-7]], &mut pool);
    assert_eq!(f.max_var, 7);
    let mut vars: Vec<usize> = f.vars.iter().copied().collect();
    vars.sort();
    assert_eq!(vars, vec![1, 2, 3, 4, 7]);
    assert_eq!(f.literal_counts.get(&2), Some(&2));
    assert_eq!(f.literal_counts.get(&1), Some(&1));
    assert_eq!(f.literal_counts.get(&-3), Some(&1));
    assert_eq!(f.literal_counts.get(&-4), Some(&1));
    assert_eq!(f.literal_counts.get(&-1), None);
    assert_eq!(f.clauses.len(), 3);
    let lits: Vec<isize> = f.clauses[0].iter_literals().iter().map(|l| l.to_isize()).collect();
    assert_eq!(lits, vec![1, 2, -3]);
    assert!(f.clauses[1].iter_literals().is_empty());
    let lits: Vec<isize> = f.clauses[2].iter_literals().iter().map(|l| l.to_isize()).collect();
    assert_eq!(lits, vec![-7]);
}

#[test]
fn resolution_joins_two_clauses_without_the_pivot() {
    let mut va = BitSet::new(0);
    let mut na = BitSet::new(0);
    for v in [1usize, 2, 3] {
        va.set(v);
    }
    na.set(2);
    let mut a = Clause::create(va, na);
    let mut vb = BitSet::new(0);
    let mut nb = BitSet::new(0);
    for v in [2usize, 4] {
        vb.set(v);
    }
    nb.set(4);
    let b = Clause::create(vb, nb);
    assert!(a.can_resolve(&b, 2));
    assert!(!a.can_resolve(&b, 1));
    assert!(!a.can_resolve(&b, 4));
    a.resolve_exn(&b, 2);
    let lits: Vec<isize> = a.iter_literals().iter().map(|l| l.to_isize()).collect();
    assert_eq!(lits, vec![1, 3, -4]);
    let mut pool = Pool::new();
    let c = a.copy(&mut pool);
    let lits: Vec<isize> = c.iter_literals().iter().map(|l| l.to_isize()).collect();
    assert_eq!(lits, vec![1, 3, -4]);
}

#[test]
fn distinct_numbers_are_counted_once() {
    assert_eq!(count_distinct(vec![]), 0);
    assert_eq!(count_distinct(vec![4]), 1);
    assert_eq!(count_distinct(vec![3, 3, 5]), 2);
    assert_eq!(count_distinct(vec![2, 1, 2, 1, 0, 0, 7]), 4);
}

#[test]
fn the_less_active_half_comes_least_active_first() {
    assert_eq!(weakest_half(vec![]), Vec::<usize>::new());
    assert_eq!(weakest_half(vec![(9, 0)]), Vec::<usize>::new());
    assert_eq!(weakest_half(vec![(5, 0), (1, 1), (3, 2), (2, 3)]), vec![1, 3]);
    assert_eq!(weakest_half(vec![(7, 4), (7, 2), (1, 9), (7, 3), (8, 0)]), vec![9, 2]);
}

#[test]
fn a_clause_without_literals_is_refuted_at_the_first_step() {
    let mut solver = State::<RandomConfig>::create(vec![vec![1, 2], vec![], vec![-2]]);
    match solver.step(None) {
        StepResult::Done(SatResult::Unsat) => {}
        other => panic!("{:?}", other),
    }
    match solver.run() {
        SatResult::Unsat => {}
        other => panic!("{:?}", other),
    }
}

#[test]
fn a_formula_without_clauses_is_satisfied_at_the_first_step() {
    let mut solver = pror::cdcl::Default::create(vec![]);
    match solver.step(None) {
        StepResult::Done(SatResult::Sat(model)) => assert!(model.is_empty()),
        other => panic!("{:?}", other),
    }
}

#[test]
fn a_model_under_assumptions_makes_them_true() {
    let formula = vec![vec![1, 2], vec![-1, 3], vec![2, 3, 4]];
    let mut solver = pror::cdcl::Default::create(formula.clone());
    for assumptions in [vec![-1], vec![-2], vec![-3], vec![-1, -4], vec![1, -3], vec![-2, 4, 9], vec![-9]] {
        match solver.run_with_assumptions(&assumptions) {
            SatResult::Sat(model) => {
                assert!(satisfies(&formula, &model));
                for a in &assumptions {
                    assert_eq!(model.get(&a.unsigned_abs()), Some(&(*a > 0)), "{:?}", assumptions);
                }
            }
            SatResult::Unsat => {
                let mut with = formula.clone();
                for a in &assumptions {
                    with.push(vec![*a]);
                }
                assert!(!brute_force(&with, 9), "{:?}", assumptions);
            }
        }
    }
    match solver.run_with_assumptions(&[1, -3]) {
        SatResult::Unsat => {}
        other => panic!("{:?}", other),
    }
    match solver.run_with_assumptions(&[5, -5]) {
        SatResult::Unsat => {}
        other => panic!("{:?}", other),
    }
}

#[test]
fn enumeration_decides_small_formulas() {
    let sat = vec![vec![1, 2], vec![-2, 3], vec![-1, -3]];
    match decide(&sat, 4) {
        Some(values) => {
            assert_eq!(values.len(), 4);
            assert!(formula_true(&sat, &values));
            assert!((values[1] || values[2]) && (!values[2] || values[3]) && (!values[1] || !values[3]));
        }
        None => panic!("no values"),
    }
    let unsat = vec![vec![1], vec![2], vec![-1, -2]];
    assert_eq!(decide(&unsat, 3), None);
    assert_eq!(decide(&vec![vec![]], 1), None);
    assert_eq!(decide(&vec![], 0), Some(vec![]));
    assert!(clause_true(&vec![-1, 2], &vec![false, false, false]));
    assert!(!clause_true(&vec![1, -2], &vec![false, false, true]));
}

#[test]
fn a_solver_made_with_an_empty_clause_is_done_at_the_first_step() {
    let mut pool: Pool<BitSet> = Pool::new();
    let formula = Formula::new(vec![vec![1], vec![]], &mut pool);
    let mut solver = State::<pror::cdcl::VsidsConfig>::new_with_pool_and_debug_writer(formula, pool, None);
    match solver.step(None) {
        StepResult::Done(SatResult::Unsat) => {}
        other => panic!("{:?}", other),
    }
    match solver.step(Some(Literal::new(1, true))) {
        StepResult::Done(SatResult::Unsat) => {}
        other => panic!("{:?}", other),
    }
    match solver.run() {
        SatResult::Unsat => {}
        other => panic!("{:?}", other),
    }
}

#[test]
fn the_solver_answers_alike_on_both_kinds_of_set() {
    let mut seed = 99u64;
    for round in 0..200 {
        let vars = 3 + round % 6;
        let formula = random_formula(&mut seed, vars, 4 + round % 20, 3);
        let flat = pror::cdcl::Default::solve(formula.clone());
        let tree = State::<pror::cdcl::VsidsTreeConfig>::solve(formula.clone());
        match (&flat, &tree) {
            (SatResult::Sat(a), SatResult::Sat(b)) => {
                assert!(satisfies(&formula, a));
                assert_eq!(a, b, "{:?}", formula);
            }
            (SatResult::Unsat, SatResult::Unsat) => {}
            _ => panic!("{:?}: {:?} and {:?}", formula, flat, tree),
        }
    }
}

#[test]
fn the_sparse_set_agrees_with_the_flat_one() {
    let mut seed = 5u64;
    let mut flat = BitSet::create();
    let mut sparse = DefaultMapBitSet::create();
    for _ in 0..400 {
        let bit = (next(&mut seed) % 700) as usize;
        if next(&mut seed) % 3 == 0 {
            flat.clear(bit);
            sparse.clear(bit);
        } else {
            flat.set(bit);
            sparse.set(bit);
        }
        let probe = (next(&mut seed) % 800) as usize;
        assert_eq!(flat.contains(probe), sparse.contains(probe));
        assert_eq!(flat.first_set_ge(probe), sparse.first_set_ge(probe));
        assert_eq!(flat.first_unset_ge(probe), sparse.first_unset_ge(probe));
        assert_eq!(flat.count(), sparse.count());
        assert_eq!(flat.capacity(), sparse.capacity());
    }
    assert_eq!(flat.iter(), sparse.iter());
    sparse.clear_all();
    assert!(sparse.is_empty());
}

#[test]
fn storages_keep_words_by_position() {
    let mut words: Vec<u64> = BlockStorage::with_capacity(3);
    let mut sparse: BTreeMapStorage = BlockStorage::with_capacity(3);
    assert_eq!(words.block_count(), 3);
    assert_eq!(sparse.block_count(), 3);
    words.set_idx(1, 6);
    sparse.set_idx(1, 6);
    assert_eq!(words.get_idx(1), 6);
    assert_eq!(sparse.get_idx(1), 6);
    assert_eq!(sparse.get_idx(2), 0);
    assert_eq!(words.first_set_block_ge(0), Some(1));
    assert_eq!(sparse.first_set_block(), Some(1));
    assert_eq!(sparse.first_unset_block_ge(1), Some(1));
    sparse.set_idx(1, u64::MAX);
    assert_eq!(sparse.first_unset_block_ge(1), Some(2));
    sparse.resize(5);
    BlockStorage::resize(&mut words, 2);
    assert_eq!(sparse.block_count(), 5);
    assert_eq!(words.block_count(), 3);
    sparse.set_idx(1, 0);
    assert_eq!(sparse.first_set_block_ge(0), None);
}

#[test]
fn a_sparse_set_finds_members_across_empty_words() {
    let mut sparse = DefaultMapBitSet::create();
    sparse.set(3);
    sparse.set(70_000);
    sparse.set(70_001);
    assert_eq!(sparse.first_set_ge(0), Some(3));
    assert_eq!(sparse.first_set_ge(4), Some(70_000));
    assert_eq!(sparse.first_set_ge(70_001), Some(70_001));
    assert_eq!(sparse.first_set_ge(70_002), None);
    assert_eq!(sparse.first_unset_ge(70_000), Some(70_002));
    sparse.clear(70_000);
    sparse.clear(70_001);
    assert_eq!(sparse.first_set_ge(4), None);
    let mut words: BTreeMapStorage = BlockStorage::with_capacity(9);
    words.set_idx(2, 1);
    words.set_idx(7, 8);
    assert_eq!(words.first_set_block_ge(3), Some(7));
    assert_eq!(words.first_set_block_ge(8), None);
    assert_eq!(words.first_set_block_ge(9), None);
    assert_eq!(words.first_set_block_ge(40), None);
}
