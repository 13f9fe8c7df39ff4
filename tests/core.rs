use starlit::clauses::SolverClauseData;
use starlit::lit::Lit;
use starlit::reduce::ReduceOps;
use starlit::search::Search;
use starlit::trail::{Reason, Step, Trail};

fn lit(n: isize) -> Lit {
    Lit::from_dimacs(n)
}

fn learned_data(glue: usize, used: u8) -> SolverClauseData {
    let mut data = SolverClauseData::new_learned_clause(glue);
    data.set_used(used);
    data
}

#[test]
fn backtrack_unassigns_higher_levels_only() {
    let mut trail = Trail::new(4);
    trail.decide(lit(1));
    let level = trail.level;
    trail.assign(Step { assigned_lit: lit(-2), decision_level: level, reason: Reason::Binary(lit(-1)) });
    trail.decide(lit(3));
    let level = trail.level;
    trail.assign(Step { assigned_lit: lit(4), decision_level: level, reason: Reason::Binary(lit(3)) });
    assert_eq!(trail.level, 2);
    trail.backtrack(1);
    assert_eq!(trail.level, 1);
    assert_eq!(trail.steps().len(), 2);
    assert!(trail.is_true(lit(1)));
    assert!(trail.is_true(lit(-2)));
    assert!(trail.is_false(lit(2)));
    assert!(trail.is_unassigned(lit(3)));
    assert!(trail.is_unassigned(lit(-4)));
    assert_eq!(trail.steps()[1].reason, Reason::Binary(lit(-1)));
    trail.backtrack(0);
    assert!(trail.is_unassigned(lit(1)));
    assert_eq!(trail.steps().len(), 0);
}

#[test]
fn propagation_reaches_fixpoint() {
    let mut search = Search::new(4);
    search.clauses.add_clause(SolverClauseData::new_input_clause(), &[lit(-1), lit(2)]);
    search.clauses.add_clause(SolverClauseData::new_input_clause(), &[lit(-2), lit(-1), lit(3)]);
    search.clauses.add_clause(SolverClauseData::new_input_clause(), &[lit(-3), lit(4), lit(-2)]);
    search.decide(lit(1));
    assert!(search.propagate().is_none());
    assert!(search.trail.is_true(lit(2)));
    assert!(search.trail.is_true(lit(3)));
    assert!(search.trail.is_true(lit(4)));
    assert_eq!(search.stats.propagations, 3);
    assert_eq!(search.trail.steps()[3].reason, Reason::Long(1));
}

#[test]
fn propagation_reports_falsified_clause() {
    let mut search = Search::new(3);
    search.clauses.add_clause(SolverClauseData::new_input_clause(), &[lit(-1), lit(2)]);
    search.clauses.add_clause(SolverClauseData::new_input_clause(), &[lit(-1), lit(3)]);
    search.clauses.add_clause(SolverClauseData::new_input_clause(), &[lit(-2), lit(-3)]);
    search.decide(lit(1));
    let conflict = search.propagate().expect("conflict");
    assert_eq!(conflict.len(), 2);
    assert!(conflict.iter().all(|&l| search.trail.is_false(l)));
}

#[test]
fn analysis_learns_asserting_clause() {
    let mut search = Search::new(3);
    search.clauses.add_clause(SolverClauseData::new_input_clause(), &[lit(-1), lit(2)]);
    search.clauses.add_clause(SolverClauseData::new_input_clause(), &[lit(-1), lit(3)]);
    search.clauses.add_clause(SolverClauseData::new_input_clause(), &[lit(-2), lit(-3)]);
    search.decide(lit(1));
    let conflict = search.propagate().expect("conflict");
    let learned = search.analyze(&conflict);
    assert_eq!(learned.lits, vec![lit(-1)]);
    assert_eq!(learned.backjump, 0);
    assert_eq!(learned.glue, 0);
    assert!(learned.lits.iter().all(|&l| search.trail.is_false(l)));
    search.learn(learned);
    assert_eq!(search.trail.level, 0);
    assert!(search.trail.is_true(lit(-1)));
}

#[test]
fn analysis_backjumps_to_second_highest_level() {
    let mut search = Search::new(5);
    search.clauses.add_clause(SolverClauseData::new_input_clause(), &[lit(-1), lit(-3), lit(4)]);
    search.clauses.add_clause(SolverClauseData::new_input_clause(), &[lit(-1), lit(-3), lit(5)]);
    search.clauses.add_clause(SolverClauseData::new_input_clause(), &[lit(-4), lit(-5)]);
    search.decide(lit(1));
    assert!(search.propagate().is_none());
    search.decide(lit(2));
    assert!(search.propagate().is_none());
    search.decide(lit(3));
    let conflict = search.propagate().expect("conflict");
    let learned = search.analyze(&conflict);
    assert_eq!(learned.lits, vec![lit(-3), lit(-1)]);
    assert_eq!(learned.backjump, 1);
    assert_eq!(learned.glue, 1);
    search.learn(learned);
    assert_eq!(search.trail.level, 1);
    assert!(search.trail.is_true(lit(-3)));
    assert_eq!(search.clauses.binary.len(), 2);
}

#[test]
fn reduction_keeps_core_recent_input_and_reason_clauses() {
    let mut search = Search::new(6);
    let input = search.clauses.add_clause(SolverClauseData::new_input_clause(), &[lit(4), lit(5), lit(6)]).unwrap();
    let core = search.clauses.add_clause(learned_data(2, 0), &[lit(4), lit(5), lit(-6)]).unwrap();
    let recent = search.clauses.add_clause(learned_data(4, 1), &[lit(-4), lit(5), lit(6)]).unwrap();
    let d = search.clauses.add_clause(learned_data(6, 0), &[lit(-4), lit(-5), lit(6)]).unwrap();
    let e = search.clauses.add_clause(learned_data(7, 0), &[lit(4), lit(-5), lit(-6)]).unwrap();
    let f = search.clauses.add_clause(learned_data(8, 0), &[lit(-4), lit(-5), lit(-6)]).unwrap();
    let reason = search.clauses.add_clause(learned_data(9, 0), &[lit(1), lit(2), lit(3)]).unwrap();
    search.decide(lit(-2));
    search.decide(lit(-3));
    assert!(search.propagate().is_none());
    assert!(search.trail.is_true(lit(1)));

    let mut ops = ReduceOps::new();
    ops.reduce(&mut search);

    assert_eq!(ops.deletion_candidates.len(), 3);
    let long = &search.clauses.long;
    for h in [input, core, recent, d, e, reason] {
        assert!(long.clauses[h].live, "clause {} was deleted", h);
    }
    assert!(!long.clauses[f].live);
    assert_eq!(long.data(recent).used(), 0);
    assert!(!long.data(reason).protected());
    assert_eq!(long.data(input).glue(), 3);
    let mut cursor = 0;
    let mut live = vec![];
    while let Some(h) = long.next_clause(&mut cursor) {
        live.push(h);
    }
    assert_eq!(live, vec![input, core, recent, d, e, reason]);
}

#[test]
fn clause_metadata_is_clamped() {
    let mut data = SolverClauseData::new_learned_clause(1000);
    assert_eq!(data.glue(), 63);
    data.set_used(9);
    assert_eq!(data.used(), 3);
    data.set_protected(true);
    assert!(data.protected());
    assert!(data.redundant());
    assert!(!SolverClauseData::new_input_clause().redundant());
}

#[test]
fn propagation_fixpoint_leaves_no_unit_clause() {
    let clauses: &[&[isize]] = &[&[-1, 2, 3], &[-2, 4], &[-3, -4, 5], &[-5, 6, -1], &[1, 6]];
    let mut search = Search::new(6);
    for clause in clauses {
        let lits: Vec<Lit> = clause.iter().map(|&n| lit(n)).collect();
        search.clauses.add_clause(SolverClauseData::new_input_clause(), &lits);
    }
    search.decide(lit(-2));
    search.decide(lit(1));
    assert!(search.propagate().is_none());
    for clause in clauses {
        let satisfied = clause.iter().any(|&n| search.trail.is_true(lit(n)));
        let open = clause.iter().filter(|&&n| !search.trail.is_false(lit(n))).count();
        assert!(satisfied || open >= 2);
    }
    assert!(search.trail.is_true(lit(3)));
}

#[test]
fn reduction_deletes_half_of_two_candidates() {
    let mut search = Search::new(4);
    let better = search.clauses.add_clause(learned_data(6, 0), &[lit(1), lit(2), lit(3)]).unwrap();
    let worse = search.clauses.add_clause(learned_data(9, 0), &[lit(-1), lit(2), lit(4)]).unwrap();
    let mut ops = ReduceOps::new();
    ops.reduce(&mut search);
    assert!(search.clauses.long.clauses[better].live);
    assert!(!search.clauses.long.clauses[worse].live);
    assert_eq!(ops.deletion_candidates.len(), 2);
}

#[test]
fn literal_values_follow_codes() {
    let l = lit(-7);
    assert_eq!(Lit::from_code(l.code()), l);
    assert_eq!(Lit::from_var(l.var(), l.is_positive()), l);
    assert_eq!(l.negate().negate(), l);
}
