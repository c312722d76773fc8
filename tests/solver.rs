use simp_sat::{Lit, SimpSolver, Var};

fn clause_holds_in(clause: &[Lit], model: &[Lit]) -> bool {
    clause.iter().any(|l| model.contains(l))
}

fn model_is_valid(clauses: &[Vec<Lit>], assumptions: &[Lit], model: &[Lit]) -> bool {
    let ordered = model.windows(2).all(|w| i32::from(w[0].var()) < i32::from(w[1].var()));
    ordered
        && clauses.iter().all(|c| clause_holds_in(c, model))
        && assumptions.iter().all(|a| model.contains(a))
}

#[test]
fn test() {
    let mut solver = SimpSolver::new();
    let var0 = solver.new_var();
    let var1 = solver.new_var();
    let lit0: Lit = var0.into();
    let lit1: Lit = var1.into();
    solver.add_clause(&[!lit0, lit1]);
    assert!(solver.solve(&[]).is_some());
    solver.add_clause(&[lit0, !lit1]);
    assert!(solver.solve(&[]).is_some());
    solver.add_clause(&[!lit0, !lit1]);
    assert!(solver.solve(&[]).is_some());
    solver.add_clause(&[lit0, lit1]);
    assert!(solver.solve(&[]).is_none());
}

#[test]
fn two_variable_toggling() {
    let mut solver = SimpSolver::new();
    let x0 = solver.new_var();
    let x1 = solver.new_var();
    let p0 = Lit::new(x0, false);
    let p1 = Lit::new(x1, false);
    let mut clauses: Vec<Vec<Lit>> = Vec::new();

    clauses.push(vec![!p0, p1]);
    solver.add_clause(&clauses[0]);
    let m = solver.solve(&[]).expect("first query is satisfiable").to_vec();
    assert!(model_is_valid(&clauses, &[], &m));

    clauses.push(vec![p0, !p1]);
    solver.add_clause(&clauses[1]);
    let m = solver.solve(&[]).expect("second query is satisfiable").to_vec();
    assert!(model_is_valid(&clauses, &[], &m));

    clauses.push(vec![!p0, !p1]);
    solver.add_clause(&clauses[2]);
    let m = solver.solve(&[]).expect("third query is satisfiable").to_vec();
    assert_eq!(m, vec![Lit::new(x0, true), Lit::new(x1, true)]);
    assert!(model_is_valid(&clauses, &[], &m));

    clauses.push(vec![p0, p1]);
    solver.add_clause(&clauses[3]);
    assert!(solver.solve(&[]).is_none());
}

#[test]
fn assumptions_are_scoped_to_one_query() {
    let mut solver = SimpSolver::new();
    let x0 = solver.new_var();
    let p0 = Lit::new(x0, false);
    solver.add_clause(&[p0]);
    assert!(solver.solve(&[!p0]).is_none());
    assert_eq!(solver.solve(&[]), Some(&[p0][..]));
    assert!(solver.solve(&[!p0]).is_none());
    assert_eq!(solver.solve(&[p0]), Some(&[p0][..]));
}

#[test]
fn unsat_is_stable_without_changes() {
    let mut solver = SimpSolver::new();
    let x0 = solver.new_var();
    let p0 = Lit::new(x0, false);
    solver.add_clause(&[p0]);
    solver.add_clause(&[!p0]);
    assert!(solver.solve(&[]).is_none());
    assert!(solver.solve(&[]).is_none());
    let x1 = solver.new_var();
    solver.add_clause(&[Lit::new(x1, true)]);
    assert!(solver.solve(&[]).is_none());
}

#[test]
fn variables_are_allocated_in_order() {
    let mut solver = SimpSolver::new();
    for i in 0..5 {
        assert_eq!(i32::from(solver.new_var()), i);
    }
    let more = solver.new_vars(3);
    let idx: Vec<i32> = more.iter().map(|v| i32::from(*v)).collect();
    assert_eq!(idx, vec![5, 6, 7]);

    let mut fresh = SimpSolver::new();
    let vars = fresh.new_vars(4);
    let idx: Vec<i32> = vars.iter().map(|v| i32::from(*v)).collect();
    assert_eq!(idx, vec![0, 1, 2, 3]);
}

#[test]
fn empty_formula_has_empty_model() {
    let mut solver = SimpSolver::new();
    assert_eq!(solver.solve(&[]), Some(&[][..]));
    let x0 = solver.new_var();
    let x1 = solver.new_var();
    assert_eq!(solver.solve(&[]), Some(&[][..]));
    let m = solver.solve(&[Lit::new(x1, true)]).unwrap().to_vec();
    assert_eq!(m, vec![Lit::new(x0, true), Lit::new(x1, true)]);
}

#[test]
fn empty_clause_is_unsatisfiable() {
    let mut solver = SimpSolver::new();
    let _x0 = solver.new_var();
    solver.add_clause(&[]);
    assert!(solver.solve(&[]).is_none());
}

#[test]
fn dont_care_variables_are_left_out() {
    let mut solver = SimpSolver::new();
    let x0 = solver.new_var();
    let x1 = solver.new_var();
    let x2 = solver.new_var();
    solver.add_clause(&[Lit::new(x0, true), Lit::new(x2, false)]);
    let m = solver.solve(&[]).unwrap().to_vec();
    assert_eq!(m, vec![Lit::new(x0, true)]);
    let m = solver.solve(&[Lit::new(x0, false)]).unwrap().to_vec();
    assert_eq!(m, vec![Lit::new(x0, false), Lit::new(x1, true), Lit::new(x2, false)]);
}

#[test]
fn model_satisfies_a_larger_formula() {
    let mut solver = SimpSolver::new();
    let v = solver.new_vars(4);
    let l = |i: usize, neg: bool| Lit::new(v[i], neg);
    let clauses = vec![
        vec![l(0, false), l(1, false), l(2, false)],
        vec![l(0, true), l(3, false)],
        vec![l(1, true), l(3, true)],
        vec![l(2, true), l(0, false)],
        vec![l(3, false), l(2, false)],
    ];
    for c in &clauses {
        solver.add_clause(c);
    }
    let assumptions = [l(1, true)];
    let m = solver.solve(&assumptions).unwrap().to_vec();
    assert!(model_is_valid(&clauses, &assumptions, &m));
    assert_eq!(m, vec![l(0, false), l(1, true), l(2, true), l(3, false)]);
}

#[test]
fn pigeonhole_three_into_two_is_unsatisfiable() {
    let mut solver = SimpSolver::new();
    let v = solver.new_vars(6);
    let p = |pigeon: usize, hole: usize| Lit::new(v[pigeon * 2 + hole], false);
    for pigeon in 0..3 {
        solver.add_clause(&[p(pigeon, 0), p(pigeon, 1)]);
    }
    for hole in 0..2 {
        for a in 0..3 {
            for b in (a + 1)..3 {
                solver.add_clause(&[!p(a, hole), !p(b, hole)]);
            }
        }
    }
    assert!(solver.solve(&[]).is_none());
}

#[test]
fn var_converts_to_and_from_i32() {
    let v = Var::from(17);
    assert_eq!(i32::from(v), 17);
    assert_eq!(Var::from(0), Var::from(0));
    assert_ne!(Var::from(1), Var::from(2));
}
