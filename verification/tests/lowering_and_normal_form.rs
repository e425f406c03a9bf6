use ratelimitsub::normal::{normalize, reduce_step};
use ratelimitsub::rate::Rate;
use ratelimitsub::stream::{lower, BARate, StreamRate, SubRel, SymRate};
use std::rc::Rc;

fn rate(events: u64, window: u64) -> Rate {
    Rate::new(events, window).unwrap()
}

fn raw(events: u64, window: u64) -> Rc<BARate> {
    Rc::new(BARate::Raw(rate(events, window)))
}

fn par(x: Rc<BARate>, y: Rc<BARate>) -> Rc<BARate> {
    Rc::new(BARate::Par(x, y))
}

fn seq(x: Rc<BARate>, y: Rc<BARate>) -> Rc<BARate> {
    Rc::new(BARate::LConcat(x, y))
}

fn or(x: Rc<BARate>, y: Rc<BARate>) -> Rc<BARate> {
    Rc::new(BARate::Or(x, y))
}

fn and(x: Rc<BARate>, y: Rc<BARate>) -> Rc<BARate> {
    Rc::new(BARate::And(x, y))
}

fn logical(b: &BARate) -> bool {
    matches!(b, BARate::Or(_, _) | BARate::And(_, _))
}

fn in_normal_form(b: &BARate) -> bool {
    match b {
        BARate::Raw(_) | BARate::Sym(_) => true,
        BARate::Or(x, y) | BARate::And(x, y) => in_normal_form(x) && in_normal_form(y),
        BARate::Par(x, y) | BARate::LConcat(x, y) => {
            !logical(x) && !logical(y) && in_normal_form(x) && in_normal_form(y)
        }
    }
}

fn leaf(events: u64, window: u64) -> Box<StreamRate> {
    Box::new(StreamRate::Raw(rate(events, window)))
}

#[test]
fn a_rate_lowers_to_itself_on_both_sides() {
    let sr = StreamRate::Raw(rate(10, 5));
    assert_eq!(lower(&sr, SubRel::Lhs), BARate::Raw(rate(10, 5)));
    assert_eq!(lower(&sr, SubRel::Rhs), BARate::Raw(rate(10, 5)));
}

#[test]
fn a_union_is_a_disjunction_on_the_left_and_a_conjunction_on_the_right() {
    let sr = StreamRate::Sum(leaf(1, 2), leaf(3, 4));
    assert_eq!(lower(&sr, SubRel::Lhs), BARate::Or(raw(1, 2), raw(3, 4)));
    assert_eq!(lower(&sr, SubRel::Rhs), BARate::And(raw(1, 2), raw(3, 4)));
}

#[test]
fn a_sequence_stays_structural_on_the_left_only() {
    let sr = StreamRate::Concat(leaf(1, 2), leaf(3, 4));
    assert_eq!(lower(&sr, SubRel::Lhs), BARate::LConcat(raw(1, 2), raw(3, 4)));
    assert_eq!(lower(&sr, SubRel::Rhs), BARate::And(raw(1, 2), raw(3, 4)));
}

#[test]
fn a_merge_is_structural_on_both_sides() {
    let sr = StreamRate::Par(leaf(1, 2), leaf(3, 4));
    assert_eq!(lower(&sr, SubRel::Lhs), BARate::Par(raw(1, 2), raw(3, 4)));
    assert_eq!(lower(&sr, SubRel::Rhs), BARate::Par(raw(1, 2), raw(3, 4)));
}

#[test]
fn lowering_goes_through_the_whole_expression() {
    let sr = StreamRate::Par(
        Box::new(StreamRate::Sum(leaf(1, 2), leaf(3, 4))),
        Box::new(StreamRate::Concat(leaf(5, 6), leaf(7, 8))),
    );
    assert_eq!(
        lower(&sr, SubRel::Lhs),
        BARate::Par(or(raw(1, 2), raw(3, 4)), seq(raw(5, 6), raw(7, 8)))
    );
    assert_eq!(
        lower(&sr, SubRel::Rhs),
        BARate::Par(and(raw(1, 2), raw(3, 4)), and(raw(5, 6), raw(7, 8)))
    );
}

#[test]
fn a_merge_of_a_disjunction_and_a_conjunction_is_distributed_twice() {
    let (a, b, c, d) = (raw(1, 1), raw(2, 2), raw(3, 3), raw(4, 4));
    let term = par(or(a.clone(), b.clone()), and(c.clone(), d.clone()));
    let expected = or(
        and(par(c.clone(), a.clone()), par(d.clone(), a.clone())),
        and(par(c.clone(), b.clone()), par(d.clone(), b.clone())),
    );
    let got = normalize(term);
    assert_eq!(got, expected);
    assert!(in_normal_form(&got));
}

#[test]
fn one_pass_rewrites_the_node_and_leaves_its_operands() {
    let (a, b, c, d) = (raw(1, 1), raw(2, 2), raw(3, 3), raw(4, 4));
    let term = par(or(a.clone(), b.clone()), and(c.clone(), d.clone()));
    let (once, changed) = reduce_step(&term);
    assert!(changed);
    assert_eq!(
        once,
        or(
            par(a.clone(), and(c.clone(), d.clone())),
            par(b.clone(), and(c.clone(), d.clone()))
        )
    );
    let (twice, changed) = reduce_step(&once);
    assert!(changed);
    let (thrice, changed) = reduce_step(&twice);
    assert!(!changed);
    assert_eq!(thrice, twice);
}

#[test]
fn the_operand_that_is_taken_apart_comes_first() {
    let (a, l, r) = (raw(1, 1), raw(2, 2), raw(3, 3));
    assert_eq!(
        reduce_step(&par(a.clone(), or(l.clone(), r.clone()))),
        (or(par(l.clone(), a.clone()), par(r.clone(), a.clone())), true)
    );
    assert_eq!(
        reduce_step(&par(a.clone(), and(l.clone(), r.clone()))),
        (and(par(l.clone(), a.clone()), par(r.clone(), a.clone())), true)
    );
    assert_eq!(
        reduce_step(&par(and(l.clone(), r.clone()), a.clone())),
        (and(par(l.clone(), a.clone()), par(r.clone(), a.clone())), true)
    );
}

#[test]
fn a_disjunction_is_distributed_before_a_conjunction() {
    let (a, b, c, d) = (raw(1, 1), raw(2, 2), raw(3, 3), raw(4, 4));
    let conj = and(a.clone(), b.clone());
    let term = par(conj.clone(), or(c.clone(), d.clone()));
    assert_eq!(
        reduce_step(&term),
        (or(par(c.clone(), conj.clone()), par(d.clone(), conj.clone())), true)
    );
}

#[test]
fn a_sequence_is_distributed_into_merges() {
    let (a, l, r) = (raw(1, 1), raw(2, 2), raw(3, 3));
    assert_eq!(
        reduce_step(&seq(or(l.clone(), r.clone()), a.clone())),
        (or(par(l.clone(), a.clone()), par(r.clone(), a.clone())), true)
    );
    assert_eq!(
        reduce_step(&seq(a.clone(), or(l.clone(), r.clone()))),
        (or(par(l.clone(), a.clone()), par(r.clone(), a.clone())), true)
    );
    assert_eq!(
        reduce_step(&seq(and(l.clone(), r.clone()), a.clone())),
        (and(par(l.clone(), a.clone()), par(r.clone(), a.clone())), true)
    );
    assert_eq!(
        reduce_step(&seq(a.clone(), and(l.clone(), r.clone()))),
        (and(par(l.clone(), a.clone()), par(r.clone(), a.clone())), true)
    );
}

#[test]
fn a_pass_goes_into_the_operands_where_no_rule_applies() {
    let (a, b, c) = (raw(1, 1), raw(2, 2), raw(3, 3));
    let inner = par(or(a.clone(), b.clone()), c.clone());
    let rewritten = or(par(a.clone(), c.clone()), par(b.clone(), c.clone()));
    assert_eq!(
        reduce_step(&and(inner.clone(), c.clone())),
        (and(rewritten.clone(), c.clone()), true)
    );
    assert_eq!(
        reduce_step(&seq(c.clone(), par(c.clone(), inner.clone()))),
        (seq(c.clone(), par(c.clone(), rewritten.clone())), true)
    );
}

#[test]
fn leaves_and_normal_forms_do_not_change() {
    let sym = Rc::new(BARate::Sym(SymRate {
        events: 0,
        window: 1,
        max_window: 5,
        min_window: 5,
        seen_concrete_windows: vec![5],
        seen_symbolic_windows: vec![],
    }));
    assert_eq!(reduce_step(&sym), (sym.clone(), false));
    assert_eq!(reduce_step(&raw(1, 2)), (raw(1, 2), false));
    let normal = or(par(raw(1, 2), seq(sym.clone(), raw(3, 4))), and(raw(5, 6), sym.clone()));
    assert_eq!(reduce_step(&normal), (normal.clone(), false));
    assert_eq!(normalize(normal.clone()), normal);
}

#[test]
fn normalizing_twice_is_normalizing_once() {
    let (a, b, c, d) = (raw(1, 1), raw(2, 2), raw(3, 3), raw(4, 4));
    let terms = vec![
        par(or(a.clone(), b.clone()), and(c.clone(), d.clone())),
        seq(par(or(a.clone(), b.clone()), c.clone()), or(d.clone(), and(a.clone(), b.clone()))),
        par(par(or(a.clone(), b.clone()), or(c.clone(), d.clone())), or(a.clone(), d.clone())),
        and(seq(a.clone(), and(b.clone(), c.clone())), d.clone()),
    ];
    for term in terms {
        let once = normalize(term);
        assert!(in_normal_form(&once));
        let twice = normalize(once.clone());
        assert_eq!(twice, once);
    }
}

#[test]
fn a_deep_merge_of_disjunctions_is_fully_distributed() {
    let (a, b, c, d) = (raw(1, 1), raw(2, 2), raw(3, 3), raw(4, 4));
    let term = par(or(a.clone(), b.clone()), or(c.clone(), d.clone()));
    let expected = or(
        or(par(c.clone(), a.clone()), par(d.clone(), a.clone())),
        or(par(c.clone(), b.clone()), par(d.clone(), b.clone())),
    );
    assert_eq!(normalize(term), expected);
}
