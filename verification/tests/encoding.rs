use ratelimitsub::encode::{discharge_subtyping, symbolize, Fatal};
use ratelimitsub::formula::{Formula, Problem, Term};
use ratelimitsub::rate::Rate;
use ratelimitsub::stream::{BARate, SubRel, SymRate};
use std::rc::Rc;

fn raw(events: u64, window: u64) -> Rc<BARate> {
    Rc::new(BARate::Raw(Rate::new(events, window).unwrap()))
}

fn par(x: Rc<BARate>, y: Rc<BARate>) -> Rc<BARate> {
    Rc::new(BARate::Par(x, y))
}

fn seq(x: Rc<BARate>, y: Rc<BARate>) -> Rc<BARate> {
    Rc::new(BARate::LConcat(x, y))
}

fn v(i: usize) -> Term {
    Term::Var(i)
}

fn k(c: u64) -> Term {
    Term::Const(c)
}

fn sym(events: usize, window: usize, low: u64, high: u64, literals: &[u64], variables: &[usize]) -> SymRate {
    SymRate {
        events,
        window,
        max_window: high,
        min_window: low,
        seen_concrete_windows: literals.to_vec(),
        seen_symbolic_windows: variables.to_vec(),
    }
}

fn encode(term: &BARate, rel: SubRel) -> (Vec<SymRate>, Problem) {
    symbolize(term, rel, Problem::new()).unwrap()
}

#[test]
fn an_empty_problem() {
    let p = Problem::new();
    assert_eq!(p.vars(), 0);
    assert!(p.assertions().is_empty());
    assert_eq!(p.accepts(&[]), Some(true));
    assert_eq!(p.accepts(&[1]), Some(false));
}

#[test]
fn a_declared_rate_has_events_and_a_window() {
    let p = Problem::new().declare_rate().declare_rate();
    assert_eq!(p.vars(), 4);
    assert_eq!(
        p.assertions(),
        &vec![
            Formula::Le(k(0), v(0)),
            Formula::Le(k(1), v(1)),
            Formula::Le(k(0), v(2)),
            Formula::Le(k(1), v(3)),
        ]
    );
    assert_eq!(p.accepts(&[0, 1, 5, 7]), Some(true));
    assert_eq!(p.accepts(&[0, 0, 5, 7]), Some(false));
    assert_eq!(p.accepts(&[0, 1, -1, 7]), Some(false));
    let p = p.assert_also(Formula::Lt(v(0), v(2)));
    assert_eq!(p.vars(), 4);
    assert_eq!(p.assertions().len(), 5);
    assert_eq!(p.accepts(&[0, 1, 5, 7]), Some(true));
    assert_eq!(p.accepts(&[5, 1, 5, 7]), Some(false));
}

#[test]
fn the_law_of_a_rate_on_the_left() {
    let (rates, p) = encode(&raw(10, 3), SubRel::Lhs);
    assert_eq!(rates, vec![sym(0, 1, 3, 3, &[3], &[])]);
    assert_eq!(p.vars(), 2);
    let whole = Formula::Eq(Term::modulo(v(1), k(3)), k(0));
    let broken = Formula::negation(Formula::Eq(Term::modulo(v(1), k(3)), k(0)));
    let law = Formula::both(
        Formula::implies(Formula::Le(v(1), k(3)), Formula::Eq(v(0), k(10))),
        Formula::implies(
            Formula::Le(k(3), v(1)),
            Formula::both(
                Formula::implies(whole, Formula::Eq(v(0), Term::times(k(10), Term::over(v(1), k(3))))),
                Formula::implies(
                    broken,
                    Formula::Eq(
                        v(0),
                        Term::times(k(10), Term::plus(Term::over(v(1), k(3)), k(1))),
                    ),
                ),
            ),
        ),
    );
    assert_eq!(p.assertions(), &vec![Formula::Le(k(0), v(0)), Formula::Le(k(1), v(1)), law]);
}

#[test]
fn the_law_of_a_rate_on_the_right() {
    let (rates, p) = encode(&raw(12, 4), SubRel::Rhs);
    assert_eq!(rates, vec![sym(0, 1, 4, 4, &[4], &[])]);
    let whole = Formula::Eq(Term::modulo(k(4), v(1)), k(0));
    let broken = Formula::negation(Formula::Eq(Term::modulo(k(4), v(1)), k(0)));
    let law = Formula::both(
        Formula::implies(Formula::Le(k(4), v(1)), Formula::Eq(v(0), k(12))),
        Formula::implies(
            Formula::Le(v(1), k(4)),
            Formula::both(
                Formula::implies(whole, Formula::Eq(v(0), Term::over(k(12), Term::over(k(4), v(1))))),
                Formula::implies(
                    broken,
                    Formula::Eq(v(0), Term::over(k(12), Term::plus(Term::over(k(4), v(1)), k(1)))),
                ),
            ),
        ),
    );
    assert_eq!(p.assertions()[2], law);
    assert_eq!(p.assertions().len(), 3);
}

#[test]
fn a_rate_on_the_left_grows_with_its_window() {
    let (_, p) = encode(&raw(10, 3), SubRel::Lhs);
    for (events, window) in [(10, 1), (10, 2), (10, 3), (20, 4), (20, 6), (30, 7), (40, 10)] {
        assert_eq!(p.accepts(&[events, window]), Some(true), "{} per {}", events, window);
        assert_eq!(p.accepts(&[events + 1, window]), Some(false));
        assert_eq!(p.accepts(&[events - 1, window]), Some(false));
    }
    assert_eq!(p.accepts(&[10, 0]), Some(false));
    assert_eq!(p.accepts(&[10, -3]), Some(false));
    assert_eq!(p.accepts(&[10]), Some(false));
}

#[test]
fn a_rate_on_the_right_shrinks_with_its_window() {
    let (_, p) = encode(&raw(12, 4), SubRel::Rhs);
    for (events, window) in [(3, 1), (6, 2), (6, 3), (12, 4), (12, 5), (12, 100)] {
        assert_eq!(p.accepts(&[events, window]), Some(true), "{} per {}", events, window);
        assert_eq!(p.accepts(&[events + 1, window]), Some(false));
        assert_eq!(p.accepts(&[events - 1, window]), Some(false));
    }
}

#[test]
fn a_merge_on_the_left_takes_the_longer_window() {
    let (rates, p) = encode(&par(raw(10, 3), raw(12, 5)), SubRel::Lhs);
    assert_eq!(rates, vec![sym(4, 5, 3, 5, &[3, 5], &[])]);
    assert_eq!(p.vars(), 6);
    assert_eq!(p.assertions().len(), 9);
    assert_eq!(p.accepts(&[10, 3, 12, 3, 22, 3]), Some(true));
    assert_eq!(p.accepts(&[10, 3, 12, 3, 23, 3]), Some(false));
    // 10 per 3 counts twice in a window of 5.
    assert_eq!(p.accepts(&[10, 3, 12, 5, 32, 5]), Some(true));
    assert_eq!(p.accepts(&[10, 3, 12, 5, 22, 5]), Some(false));
    assert_eq!(p.accepts(&[10, 3, 12, 5, 32, 3]), Some(false));
    // 12 per 5, seen through 4, counts three times in a window of 9.
    assert_eq!(p.accepts(&[30, 9, 12, 4, 66, 9]), Some(true));
    assert_eq!(p.accepts(&[30, 9, 12, 4, 66, 4]), Some(false));
    assert_eq!(p.accepts(&[30, 9, 12, 4, 42, 9]), Some(false));
}

#[test]
fn a_merge_on_the_right_takes_the_shorter_window() {
    let (rates, p) = encode(&par(raw(40, 4), raw(10, 5)), SubRel::Rhs);
    assert_eq!(rates, vec![sym(4, 5, 4, 5, &[4, 5], &[])]);
    assert_eq!(p.accepts(&[20, 3, 5, 3, 25, 3]), Some(true));
    // 10 per 5 is halved for a window of 4.
    assert_eq!(p.accepts(&[40, 4, 10, 5, 45, 4]), Some(true));
    assert_eq!(p.accepts(&[40, 4, 10, 5, 50, 4]), Some(false));
    assert_eq!(p.accepts(&[40, 4, 10, 5, 45, 5]), Some(false));
    // 40 per 8 is a third for a window of 3.
    assert_eq!(p.accepts(&[40, 8, 5, 3, 18, 3]), Some(true));
    assert_eq!(p.accepts(&[40, 8, 5, 3, 18, 8]), Some(false));
}

#[test]
fn a_merge_pairs_every_rate_with_every_rate() {
    let term = par(seq(raw(1, 1), raw(2, 2)), seq(raw(3, 3), raw(4, 4)));
    let (rates, p) = encode(&term, SubRel::Lhs);
    let pairs: Vec<(usize, usize)> = rates.iter().map(|r| (r.events, r.window)).collect();
    assert_eq!(
        pairs,
        vec![(12, 13), (14, 15), (16, 17), (18, 19), (20, 21), (22, 23), (24, 25), (26, 27), (28, 29)]
    );
    assert_eq!(p.vars(), 30);
    assert_eq!(p.assertions().len(), 45);
    assert_eq!(rates[0], sym(12, 13, 1, 3, &[1, 3], &[]));
    assert_eq!(rates[1], sym(14, 15, 1, 4, &[1, 3, 4], &[11]));
    assert_eq!(rates[4], sym(20, 21, 1, 4, &[1, 2, 3, 4], &[5, 11]));
    assert_eq!(rates[8], sym(28, 29, 2, 4, &[2, 4], &[]));
}

#[test]
fn a_sequence_has_its_phases_and_the_crossing() {
    let (rates, p) = encode(&seq(raw(1, 5), raw(2, 7)), SubRel::Lhs);
    assert_eq!(
        rates,
        vec![sym(0, 1, 5, 5, &[5], &[]), sym(4, 5, 5, 7, &[5, 7], &[5]), sym(2, 3, 7, 7, &[7], &[])]
    );
    assert_eq!(p.vars(), 6);
    assert_eq!(
        p.assertions()[8],
        Formula::both(
            Formula::Eq(v(5), Term::plus(v(1), v(3))),
            Formula::Eq(v(4), Term::plus(v(0), v(2))),
        )
    );
    assert_eq!(p.accepts(&[1, 5, 2, 7, 3, 12]), Some(true));
    assert_eq!(p.accepts(&[1, 2, 4, 10, 5, 12]), Some(true));
    assert_eq!(p.accepts(&[1, 5, 2, 7, 3, 7]), Some(false));
    assert_eq!(p.accepts(&[1, 5, 2, 7, 2, 12]), Some(false));
}

#[test]
fn a_nested_sequence_crosses_every_pair() {
    let (rates, p) = encode(&seq(seq(raw(1, 1), raw(2, 2)), raw(3, 3)), SubRel::Lhs);
    let pairs: Vec<(usize, usize)> = rates.iter().map(|r| (r.events, r.window)).collect();
    assert_eq!(pairs, vec![(0, 1), (4, 5), (2, 3), (8, 9), (10, 11), (12, 13), (6, 7)]);
    assert_eq!(rates[4], sym(10, 11, 1, 3, &[1, 2, 3], &[5, 11]));
    assert_eq!(p.vars(), 14);
}

#[test]
fn logical_operands_have_no_encoding() {
    let or = Rc::new(BARate::Or(raw(1, 1), raw(2, 2)));
    let and = Rc::new(BARate::And(raw(1, 1), raw(2, 2)));
    for rel in [SubRel::Lhs, SubRel::Rhs] {
        assert_eq!(symbolize(&or, rel, Problem::new()), Err(Fatal::LogicalOperand));
        assert_eq!(symbolize(&and, rel, Problem::new()), Err(Fatal::LogicalOperand));
        assert_eq!(
            symbolize(&par(raw(1, 1), or.clone()), rel, Problem::new()),
            Err(Fatal::LogicalOperand)
        );
        assert_eq!(
            symbolize(&seq(and.clone(), raw(1, 1)), rel, Problem::new()),
            Err(Fatal::LogicalOperand)
        );
    }
    assert_eq!(discharge_subtyping(&or, &raw(1, 1)), Err(Fatal::LogicalOperand));
    assert_eq!(discharge_subtyping(&raw(1, 1), &and), Err(Fatal::LogicalOperand));
}

#[test]
fn a_symbolic_leaf_needs_its_variables() {
    let leaf = |s: SymRate| Rc::new(BARate::Sym(s));
    let known = sym(0, 1, 5, 5, &[5], &[1]);
    assert_eq!(
        symbolize(&leaf(sym(0, 1, 5, 5, &[5], &[])), SubRel::Lhs, Problem::new()),
        Err(Fatal::UndeclaredVariable)
    );
    let (rates, p) = encode(&par(raw(7, 5), leaf(sym(0, 1, 5, 5, &[5], &[1]))), SubRel::Lhs);
    assert_eq!(rates, vec![sym(2, 3, 5, 5, &[5, 5], &[1])]);
    assert_eq!(p.vars(), 4);
    assert_eq!(p.accepts(&[7, 5, 14, 5]), Some(true));
    assert_eq!(known.duplicate(), known);
    for bad in [sym(2, 1, 5, 5, &[], &[]), sym(0, 2, 5, 5, &[], &[]), sym(0, 1, 5, 5, &[], &[0, 2])] {
        assert_eq!(
            symbolize(&par(raw(7, 5), leaf(bad)), SubRel::Lhs, Problem::new()),
            Err(Fatal::UndeclaredVariable)
        );
    }
    assert_eq!(
        symbolize(&par(leaf(sym(0, 1, 5, 5, &[], &[])), raw(7, 5)), SubRel::Lhs, Problem::new()),
        Err(Fatal::UndeclaredVariable)
    );
    assert_eq!(
        discharge_subtyping(&raw(7, 5), &leaf(sym(0, 1, 9, 9, &[9], &[]))).map(|p| p.vars()),
        Ok(2)
    );
}

#[test]
fn the_first_failure_is_reported() {
    let or = Rc::new(BARate::Or(raw(1, 1), raw(2, 2)));
    let ghost = Rc::new(BARate::Sym(sym(8, 9, 1, 1, &[], &[])));
    assert_eq!(
        symbolize(&par(or.clone(), ghost.clone()), SubRel::Lhs, Problem::new()),
        Err(Fatal::LogicalOperand)
    );
    assert_eq!(
        symbolize(&par(ghost.clone(), or.clone()), SubRel::Lhs, Problem::new()),
        Err(Fatal::UndeclaredVariable)
    );
    assert_eq!(discharge_subtyping(&ghost, &or), Err(Fatal::UndeclaredVariable));
    assert_eq!(discharge_subtyping(&or, &ghost), Err(Fatal::LogicalOperand));
}

#[test]
fn the_comparison_of_two_rates() {
    let p = discharge_subtyping(&raw(10, 3), &raw(12, 4)).unwrap();
    assert_eq!(p.vars(), 4);
    assert_eq!(p.assertions().len(), 7);
    let one_of = Formula::either(
        Formula::either(
            Formula::either(Formula::Bool(false), Formula::Eq(v(1), k(3))),
            Formula::Eq(v(1), k(4)),
        ),
        Formula::Bool(false),
    );
    assert_eq!(
        p.assertions()[6],
        Formula::both(
            Formula::Eq(v(1), v(3)),
            Formula::both(
                Formula::both(Formula::Le(k(3), v(1)), Formula::Le(v(1), k(4))),
                Formula::both(Formula::Le(v(0), v(2)), one_of),
            ),
        )
    );
    // 10 per 3 against 12 per 4 fails at both windows, as the numeric rule says.
    assert_eq!(p.accepts(&[10, 3, 6, 3]), Some(false));
    assert_eq!(p.accepts(&[20, 4, 12, 4]), Some(false));
    let p = discharge_subtyping(&raw(6, 3), &raw(12, 4)).unwrap();
    assert_eq!(p.accepts(&[6, 3, 6, 3]), Some(true));
    assert_eq!(p.accepts(&[12, 4, 12, 4]), Some(true));
    assert_eq!(p.accepts(&[6, 2, 6, 2]), Some(false));
}

#[test]
fn a_witness_for_two_merged_rates() {
    let p = discharge_subtyping(&par(raw(10, 3), raw(12, 5)), &par(raw(40, 4), raw(10, 5))).unwrap();
    assert_eq!(p.vars(), 12);
    assert_eq!(p.assertions().len(), 19);
    assert_eq!(p.accepts(&[10, 3, 12, 3, 22, 3, 20, 3, 5, 3, 25, 3]), Some(true));
    assert_eq!(p.accepts(&[20, 4, 12, 4, 32, 4, 40, 4, 5, 4, 45, 4]), Some(true));
    assert_eq!(p.accepts(&[20, 5, 12, 5, 32, 5, 40, 5, 10, 5, 50, 5]), Some(true));
    // A window that no rate names is no witness.
    assert_eq!(p.accepts(&[10, 2, 12, 2, 22, 2, 20, 2, 3, 2, 23, 2]), Some(false));
    assert_eq!(p.accepts(&[10, 3, 12, 3, 22, 3, 20, 3, 5, 3, 25]), Some(false));
}

#[test]
fn what_cannot_be_computed_is_not_decided() {
    let big = u64::MAX;
    let (_, p) = encode(&raw(big, 1), SubRel::Lhs);
    assert_eq!(p.accepts(&[0, i128::MAX]), None);
    assert_eq!(Term::plus(k(1), v(0)).evaluate(&[i128::MAX]), None);
    assert_eq!(Term::times(k(2), v(0)).evaluate(&[i128::MAX]), None);
    assert_eq!(Term::over(k(2), v(0)).evaluate(&[0]), None);
    assert_eq!(Term::modulo(k(2), v(0)).evaluate(&[0]), None);
    assert_eq!(v(1).evaluate(&[0]), None);
    assert_eq!(Term::over(v(0), k(2)).evaluate(&[-3]), Some(-2));
    assert_eq!(Term::modulo(v(0), k(2)).evaluate(&[-3]), Some(1));
    assert_eq!(Term::over(k(7), k(2)).evaluate(&[]), Some(3));
    assert_eq!(Term::modulo(k(7), k(2)).evaluate(&[]), Some(1));
    let undefined = Formula::Eq(v(3), k(0));
    assert_eq!(undefined.check(&[]), None);
    assert_eq!(Formula::both(Formula::Bool(false), Formula::Eq(v(3), k(0))).check(&[]), Some(false));
    assert_eq!(Formula::both(Formula::Bool(true), Formula::Eq(v(3), k(0))).check(&[]), None);
    assert_eq!(Formula::either(Formula::Bool(true), Formula::Eq(v(3), k(0))).check(&[]), Some(true));
    assert_eq!(Formula::implies(Formula::Bool(false), Formula::Eq(v(3), k(0))).check(&[]), Some(true));
    assert_eq!(Formula::negation(Formula::Lt(k(1), k(2))).check(&[]), Some(false));
    assert_eq!(Term::times(k(3), k(4)).duplicate(), Term::times(k(3), k(4)));
}
