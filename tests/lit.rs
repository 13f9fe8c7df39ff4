use starlit::lit::{Lit, Var, MAX_DIMACS, MAX_INDEX};

#[test]
fn dimacs_round_trip() {
    for number in [1isize, -1, 2, -2, 17, -17, MAX_DIMACS, -MAX_DIMACS] {
        assert_eq!(Lit::from_dimacs(number).dimacs(), number);
    }
}

#[test]
fn var_dimacs_round_trip() {
    for number in [1isize, 5, MAX_DIMACS] {
        assert_eq!(Var::from_dimacs(number).dimacs(), number);
        assert_eq!(Var::from_dimacs(number).index(), (number - 1) as usize);
    }
}

#[test]
fn literal_codes() {
    assert_eq!(Lit::from_index(3, true).code(), 7);
    assert_eq!(Lit::from_index(3, false).code(), 6);
    assert_eq!(Lit::from_dimacs(-4).code(), 6);
    assert_eq!(Lit::from_dimacs(4).code(), 7);
    assert_eq!(Lit::from_code(7).index(), 3);
    assert!(Lit::from_code(7).is_positive());
    assert!(Lit::from_code(6).is_negative());
    assert_eq!(Lit::from_index(MAX_INDEX, true).code(), 2 * MAX_INDEX + 1);
}

#[test]
fn literal_variable() {
    let lit = Lit::from_dimacs(-9);
    assert_eq!(lit.var(), Var::from_index(8));
    assert_eq!(lit.index(), 8);
    assert_eq!(lit.var().dimacs(), 9);
    assert_eq!(Lit::from_var(Var::from_index(2), false).dimacs(), -3);
}

#[test]
fn negation_involution() {
    for number in [1isize, -1, 6, -6, MAX_DIMACS, -MAX_DIMACS] {
        let lit = Lit::from_dimacs(number);
        assert_eq!(lit.negate().negate(), lit);
        assert_eq!(lit.negate().var(), lit.var());
        assert_eq!(lit.negate().dimacs(), -number);
        assert_ne!(lit.negate(), lit);
    }
}

#[test]
fn literal_order_follows_code() {
    assert!(Lit::from_dimacs(-1) < Lit::from_dimacs(1));
    assert!(Lit::from_dimacs(1) < Lit::from_dimacs(-2));
}

#[test]
fn unchecked_constructors_match_checked_ones() {
    assert_eq!(Var::from_index_unchecked(5), Var::from_index(5));
    assert_eq!(Lit::from_index_unchecked(5, true), Lit::from_index(5, true));
    assert_eq!(Lit::from_code_unchecked(11), Lit::from_code(11));
}
