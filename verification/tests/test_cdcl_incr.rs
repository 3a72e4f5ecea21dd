use pror::sat::SatResult;

fn report(result: &SatResult) -> String {
    format!("{:?}\n", result)
}

#[test]
fn stepped2_with_assumptions() {
    let formula: Vec<Vec<isize>> = vec![
        vec![3, -5, 6],
        vec![-2, -5, -3, 6, -4],
        vec![-5, 1, 4, -6],
        vec![3, -4, 6, 1, 2, 5],
        vec![-3, 4, -2, 6, -1, -5],
        vec![3, -2, -6, 4],
        vec![3, 2, -1],
        vec![-6, -4, 5, -3],
        vec![-3, 2, 5, 6, -1, -4],
        vec![4, -2, -3, 5],
        vec![3, -2, -1, -5, -6, -4],
        vec![-2, -6],
        vec![-1, -2, 4, 5],
        vec![2, -4, 1, 3, -5, -6],
    ];
    let mut writer = String::new();
    let mut solver = pror::cdcl::Default::create(formula);
    writer.push_str(&report(&solver.run()));
    writer.push_str(&report(&solver.run_with_assumptions(&[1])));
    writer.push_str(&report(&solver.run_with_assumptions(&[1, 2])));
    writer.push_str(&report(&solver.run_with_assumptions(&[1, 2, 5])));
    writer.push_str(&report(&solver.run_with_assumptions(&[6])));
    writer.push_str(&report(&solver.run_with_assumptions(&[1, 2, 6])));
    writer.push_str(&report(&solver.run_with_assumptions(&[-1, -2, -3, -4, -5])));
    writer.push_str(&report(&solver.run_with_assumptions(&[-1, -2, -3, -4, -5, -6])));
    let expect = "Sat({1: false, 2: false, 3: true, 4: false, 5: false, 6: false})\nSat({1: true, 2: false, 3: true, 4: false, 5: false, 6: false})\nSat({1: true, 2: true, 3: true, 4: true, 5: false, 6: false})\nUnsat\nSat({1: false, 2: false, 3: false, 4: true, 5: false, 6: true})\nUnsat\nSat({1: false, 2: false, 3: false, 4: false, 5: false, 6: true})\nSat({1: false, 2: false, 3: false, 4: false, 5: false, 6: false})\n";
    assert_eq!(writer, expect);
}

#[test]
fn simple_satisfiable_1_incr() {
    let mut solver = pror::cdcl::Default::new_from_vec(vec![]);
    let mut writer = String::new();
    solver.add_clause(vec![1]);
    writer.push_str(&report(&solver.run()));
    solver.add_clause(vec![1]);
    writer.push_str(&report(&solver.run()));
    let expect = "Sat({1: true})\nSat({1: true})\n";
    assert_eq!(writer, expect);
}

#[test]
fn simple_unsatisfiable_1_incr() {
    let mut solver = pror::cdcl::Default::new_from_vec(vec![]);
    let mut writer = String::new();
    solver.add_clause(vec![1]);
    writer.push_str(&report(&solver.run()));
    solver.add_clause(vec![-1]);
    writer.push_str(&report(&solver.run()));
    let expect = "Sat({1: true})\nUnsat\n";
    assert_eq!(writer, expect);
}

#[test]
fn satisfiable_3_vars_multiple_clauses_incr() {
    let mut solver = pror::cdcl::Default::new_from_vec(vec![]);
    let mut writer = String::new();
    solver.add_clause(vec![1, 2]);
    writer.push_str(&report(&solver.run()));
    solver.add_clause(vec![-2, 3]);
    writer.push_str(&report(&solver.run()));
    solver.add_clause(vec![-1, -3]);
    writer.push_str(&report(&solver.run()));
    let expect = "Sat({1: true, 2: true})\nSat({1: true, 2: false, 3: true})\nSat({1: false, 2: true, 3: true})\n";
    assert_eq!(writer, expect);
}

#[test]
fn stepped4_incr() {
    let formula: Vec<Vec<isize>> = vec![
        vec![3, -5, 6],
        vec![-2, -5, -3, 6, -4],
        vec![-5, 1, 4, -6],
        vec![3, -4, 6, 1, 2, 5],
        vec![-3, 4, -2, 6, -1, -5],
        vec![3, -2, -6, 4],
        vec![3, 2, -1],
        vec![-6, -4, 5, -3],
        vec![-3, 2, 5, 6, -1, -4],
        vec![4, -2, -3, 5],
        vec![3, -2, -1, -5, -6, -4],
        vec![-2, -6],
        vec![-1, -2, 4, 5],
        vec![2, -4, 1, 3, -5, -6],
    ];
    let mut solver = pror::cdcl::Default::new_from_vec(vec![]);
    for clause in &formula {
        solver.add_clause(clause.clone());
    }
    let mut writer = String::new();
    writer.push_str(&report(&solver.run()));
    let expect = "Sat({1: false, 2: false, 3: true, 4: false, 5: false, 6: false})\n";
    assert_eq!(writer, expect);
}

#[test]
fn stepped1_incr() {
    let formula: Vec<Vec<isize>> = vec![vec![1]];
    let mut solver = pror::cdcl::Default::new_from_vec(vec![]);
    for clause in &formula {
        solver.add_clause(clause.clone());
    }
    let mut writer = String::new();
    writer.push_str(&report(&solver.run()));
    let expect = "Sat({1: true})\n";
    assert_eq!(writer, expect);
}
