use starlit::lit::{Lit, Var};
use starlit::solver::{Solver, Verdict};

fn load(var_count: usize, clauses: &[&[isize]]) -> Solver {
    let mut solver = Solver::new();
    solver.set_var_count(var_count);
    for clause in clauses {
        let lits: Vec<Lit> = clause.iter().map(|&n| Lit::from_dimacs(n)).collect();
        solver.add_clause(&lits);
    }
    solver
}

fn satisfies(solver: &Solver, clauses: &[&[isize]]) -> bool {
    clauses.iter().all(|clause| {
        clause.iter().any(|&n| {
            let lit = Lit::from_dimacs(n);
            solver.value(lit.var()) == Some(lit.is_positive())
        })
    })
}

#[test]
fn unit_clause_alone_is_sat() {
    let mut solver = load(1, &[&[1]]);
    assert!(solver.solve());
    assert_eq!(solver.value(Var::from_index(0)), Some(true));
}

#[test]
fn conflicting_units_are_unsat_before_search() {
    let mut solver = load(1, &[&[1], &[-1]]);
    assert!(solver.inconsistent);
    assert!(!solver.solve());
    assert_eq!(solver.search.stats.decisions, 0);
}

#[test]
fn all_binary_clauses_over_two_variables_unsat() {
    let mut solver = load(2, &[&[1, 2], &[-1, 2], &[1, -2], &[-1, -2]]);
    assert!(!solver.solve());
    assert!(solver.search.stats.conflicts >= 1);
}

#[test]
fn chain_of_implications_unsat() {
    let mut solver = load(3, &[&[1, 2, 3], &[-1, 2], &[-2, 3], &[-3]]);
    assert!(!solver.solve());
    assert_eq!(solver.search.stats.decisions, 0);
}

#[test]
fn empty_formula_is_sat_without_decisions() {
    let mut solver = load(0, &[]);
    assert!(solver.solve());
    assert_eq!(solver.search.stats.decisions, 0);
}

#[test]
fn empty_clause_is_unsat() {
    let mut solver = load(2, &[&[1, 2], &[]]);
    assert!(solver.inconsistent);
    assert_eq!(solver.solve_within(100), Verdict::Unsat);
}

#[test]
fn satisfiable_formula_gets_model() {
    let clauses: &[&[isize]] = &[
        &[1, 2, 3],
        &[-1, -2],
        &[-2, -3],
        &[-1, -3],
        &[2, 4, 5],
        &[-4, -5, 1],
        &[3, -5],
    ];
    let mut solver = load(5, clauses);
    assert!(solver.solve());
    assert!(satisfies(&solver, clauses));
}

#[test]
fn pigeonhole_three_into_two_unsat() {
    // Variable 2 * p + h + 1: pigeon p sits in hole h.
    let clauses: &[&[isize]] = &[
        &[1, 2],
        &[3, 4],
        &[5, 6],
        &[-1, -3],
        &[-1, -5],
        &[-3, -5],
        &[-2, -4],
        &[-2, -6],
        &[-4, -6],
    ];
    let mut solver = load(6, clauses);
    assert!(!solver.solve());
    assert!(solver.search.stats.conflicts >= 1);
}

#[test]
fn pigeonhole_four_into_three_unsat_with_learning() {
    let mut clauses: Vec<Vec<isize>> = vec![];
    let var = |p: isize, h: isize| 3 * p + h + 1;
    for p in 0..4 {
        clauses.push((0..3).map(|h| var(p, h)).collect());
    }
    for h in 0..3 {
        for p in 0..4 {
            for q in (p + 1)..4 {
                clauses.push(vec![-var(p, h), -var(q, h)]);
            }
        }
    }
    let refs: Vec<&[isize]> = clauses.iter().map(|c| c.as_slice()).collect();
    let mut solver = load(12, &refs);
    assert!(!solver.solve());
    assert!(solver.search.stats.conflicts >= 2);
}

#[test]
fn small_budget_gives_unknown() {
    let clauses: &[&[isize]] = &[&[1, 2], &[-1, 2], &[1, -2], &[-1, -2]];
    let mut solver = load(2, clauses);
    assert_eq!(solver.solve_within(0), Verdict::Unknown);
}

#[test]
fn satisfiable_long_clauses_model() {
    let clauses: &[&[isize]] = &[
        &[1, 2, 3, 4],
        &[-1, -2, -3],
        &[-2, -3, -4],
        &[1, -4, 5],
        &[-5, -1, 2],
        &[3, 5, -2],
    ];
    let mut solver = load(5, clauses);
    assert!(solver.solve());
    assert!(satisfies(&solver, clauses));
}
