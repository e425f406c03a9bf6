//! Normalization of structural terms: the structural combinators are pushed
//! below the logical ones until none of them has a logical operand.

use crate::stream::{sym_free, BARate};
use std::rc::Rc;
use vstd::prelude::*;

verus! {

/// Whether the root of `b` is a logical combinator.
pub open spec fn is_logical(b: &BARate) -> bool {
    b is Or || b is And
}

/// Whether no `Par` or `LConcat` node of `b` has an `Or` or `And` child.
pub open spec fn normal_form(b: &BARate) -> bool
    decreases b,
{
    match b {
        BARate::Raw(_) | BARate::Sym(_) => true,
        BARate::Or(x, y) | BARate::And(x, y) => normal_form(x) && normal_form(y),
        BARate::Par(x, y) | BARate::LConcat(x, y) => {
            &&& !is_logical(x)
            &&& !is_logical(y)
            &&& normal_form(x)
            &&& normal_form(y)
        },
    }
}

/// Whether `b` holds no logical combinator at all.
pub open spec fn structural(b: &BARate) -> bool
    decreases b,
{
    match b {
        BARate::Raw(_) | BARate::Sym(_) => true,
        BARate::Or(_, _) | BARate::And(_, _) => false,
        BARate::Par(x, y) | BARate::LConcat(x, y) => structural(x) && structural(y),
    }
}

/// The rewrite that applies to a structural node with the operands `x` and
/// `y`, if any does. A disjunction is distributed before a conjunction, and
/// the first operand is looked at before the second. The operand that is
/// taken apart comes first in both new nodes, and both are `Par` nodes.
pub open spec fn distribute_spec(x: &BARate, y: &BARate) -> Option<BARate> {
    if let BARate::Or(l, r) = x {
        Some(BARate::Or(Rc::new(BARate::Par(*l, Rc::new(*y))), Rc::new(BARate::Par(*r, Rc::new(*y)))))
    } else if let BARate::Or(l, r) = y {
        Some(BARate::Or(Rc::new(BARate::Par(*l, Rc::new(*x))), Rc::new(BARate::Par(*r, Rc::new(*x)))))
    } else if let BARate::And(l, r) = x {
        Some(
            BARate::And(Rc::new(BARate::Par(*l, Rc::new(*y))), Rc::new(BARate::Par(*r, Rc::new(*y)))),
        )
    } else if let BARate::And(l, r) = y {
        Some(
            BARate::And(Rc::new(BARate::Par(*l, Rc::new(*x))), Rc::new(BARate::Par(*r, Rc::new(*x)))),
        )
    } else {
        None
    }
}

/// One rewrite pass over `b`: the new term, and whether any rule fired.
/// Where a rule applies to a node the node is rewritten and its operands are
/// left for the next pass; elsewhere the pass goes on into the operands.
pub open spec fn reduce_step_spec(b: &BARate) -> (BARate, bool)
    decreases b,
{
    match b {
        BARate::Raw(_) | BARate::Sym(_) => (*b, false),
        BARate::Or(x, y) => {
            let (x2, cx) = reduce_step_spec(x);
            let (y2, cy) = reduce_step_spec(y);
            (BARate::Or(Rc::new(x2), Rc::new(y2)), cx || cy)
        },
        BARate::And(x, y) => {
            let (x2, cx) = reduce_step_spec(x);
            let (y2, cy) = reduce_step_spec(y);
            (BARate::And(Rc::new(x2), Rc::new(y2)), cx || cy)
        },
        BARate::Par(x, y) => match distribute_spec(x, y) {
            Some(d) => (d, true),
            None => {
                let (x2, cx) = reduce_step_spec(x);
                let (y2, cy) = reduce_step_spec(y);
                (BARate::Par(Rc::new(x2), Rc::new(y2)), cx || cy)
            },
        },
        BARate::LConcat(x, y) => match distribute_spec(x, y) {
            Some(d) => (d, true),
            None => {
                let (x2, cx) = reduce_step_spec(x);
                let (y2, cy) = reduce_step_spec(y);
                (BARate::LConcat(Rc::new(x2), Rc::new(y2)), cx || cy)
            },
        },
    }
}

/// A measure that every rewrite pass which changes its term makes smaller:
/// a leaf weighs 2, a logical node the sum of its operands and 1, a
/// structural node the product of its operands.
pub open spec fn weight(b: &BARate) -> nat
    decreases b,
{
    match b {
        BARate::Raw(_) | BARate::Sym(_) => 2,
        BARate::Or(x, y) | BARate::And(x, y) => weight(x) + weight(y) + 1,
        BARate::Par(x, y) | BARate::LConcat(x, y) => weight(x) * weight(y),
    }
}

/// The term that the rewrite passes end in.
pub open spec fn normalize_spec(b: &BARate) -> BARate
    decreases weight(b),
    via normalize_terminates
{
    let (next, changed) = reduce_step_spec(b);
    if changed {
        normalize_spec(&next)
    } else {
        *b
    }
}

#[via_fn]
proof fn normalize_terminates(b: &BARate) {
    lemma_reduce_step(b);
}

proof fn lemma_weight_floor(b: &BARate)
    ensures
        weight(b) >= 2,
    decreases b,
{
    match b {
        BARate::Raw(_) | BARate::Sym(_) => {},
        BARate::Or(x, y) | BARate::And(x, y) => {
            lemma_weight_floor(x);
            lemma_weight_floor(y);
        },
        BARate::Par(x, y) | BARate::LConcat(x, y) => {
            lemma_weight_floor(x);
            lemma_weight_floor(y);
            assert(weight(x) * weight(y) >= 2) by (nonlinear_arith)
                requires
                    weight(x) >= 2,
                    weight(y) >= 2,
            ;
        },
    }
}

proof fn lemma_distribute(x: &BARate, y: &BARate)
    ensures
        distribute_spec(x, y) is None <==> !is_logical(x) && !is_logical(y),
        distribute_spec(x, y) matches Some(d) ==> weight(&d) < weight(x) * weight(y),
{
    lemma_weight_floor(x);
    lemma_weight_floor(y);
    let wx = weight(x) as int;
    let wy = weight(y) as int;
    if let Some(d) = distribute_spec(x, y) {
        let (l, r, other) = match (*x, *y) {
            (BARate::Or(l, r), _) => (l, r, y),
            (_, BARate::Or(l, r)) => (l, r, x),
            (BARate::And(l, r), _) => (l, r, y),
            (_, BARate::And(l, r)) => (l, r, x),
            _ => arbitrary(),
        };
        let first = BARate::Par(l, Rc::new(*other));
        let second = BARate::Par(r, Rc::new(*other));
        assert(d == BARate::Or(Rc::new(first), Rc::new(second)) || d == BARate::And(
            Rc::new(first),
            Rc::new(second),
        ));
        assert(weight(&first) == weight(&l) * weight(other));
        assert(weight(&second) == weight(&r) * weight(other));
        assert(weight(&d) == weight(&first) + weight(&second) + 1);
        lemma_product_shrinks(weight(&l) as int, weight(&r) as int, weight(other) as int);
        assert(wx * wy == wy * wx) by (nonlinear_arith);
    }
}

proof fn lemma_product_shrinks(l: int, r: int, b: int)
    requires
        b >= 2,
    ensures
        l * b + r * b + 1 < (l + r + 1) * b,
{
    assert(l * b + r * b + 1 < (l + r + 1) * b) by (nonlinear_arith)
        requires
            b >= 2,
    ;
}

/// A pass that changes its term lowers the weight; a pass that changes
/// nothing hands its term back, which happens exactly on normal forms.
pub proof fn lemma_reduce_step(b: &BARate)
    ensures
        reduce_step_spec(b).1 ==> weight(&reduce_step_spec(b).0) < weight(b),
        !reduce_step_spec(b).1 ==> reduce_step_spec(b).0 == *b,
        !reduce_step_spec(b).1 <==> normal_form(b),
    decreases b,
{
    match b {
        BARate::Raw(_) | BARate::Sym(_) => {},
        BARate::Or(x, y) | BARate::And(x, y) => {
            lemma_reduce_step(x);
            lemma_reduce_step(y);
        },
        BARate::Par(x, y) | BARate::LConcat(x, y) => {
            lemma_distribute(x, y);
            if distribute_spec(x, y) is None {
                lemma_reduce_step(x);
                lemma_reduce_step(y);
                let x2 = reduce_step_spec(x).0;
                let y2 = reduce_step_spec(y).0;
                lemma_weight_floor(&x2);
                lemma_weight_floor(&y2);
                if reduce_step_spec(b).1 {
                    assert(weight(&x2) * weight(&y2) < weight(x) * weight(y)) by (nonlinear_arith)
                        requires
                            2 <= weight(&x2) <= weight(x),
                            2 <= weight(&y2) <= weight(y),
                            weight(&x2) < weight(x) || weight(&y2) < weight(y),
                    ;
                }
            }
        },
    }
}

/// Normalization ends in a normal form.
pub proof fn lemma_normalize_normal(b: &BARate)
    ensures
        normal_form(&normalize_spec(b)),
    decreases weight(b),
{
    lemma_reduce_step(b);
    if reduce_step_spec(b).1 {
        lemma_normalize_normal(&reduce_step_spec(b).0);
    }
}

/// Normalization leaves a normal form as it is.
pub proof fn lemma_normalize_fixes_normal(b: &BARate)
    requires
        normal_form(b),
    ensures
        normalize_spec(b) == *b,
{
    lemma_reduce_step(b);
}

/// Normalizing twice gives what normalizing once gives.
pub proof fn lemma_normalize_idempotent(b: &BARate)
    ensures
        normalize_spec(&normalize_spec(b)) == normalize_spec(b),
{
    lemma_normalize_normal(b);
    lemma_normalize_fixes_normal(&normalize_spec(b));
}

proof fn lemma_distribute_sym_free(x: &BARate, y: &BARate)
    requires
        sym_free(x),
        sym_free(y),
    ensures
        distribute_spec(x, y) matches Some(d) ==> sym_free(&d),
{
    if let Some(d) = distribute_spec(x, y) {
        let (l, r, other) = match (*x, *y) {
            (BARate::Or(l, r), _) => (l, r, y),
            (_, BARate::Or(l, r)) => (l, r, x),
            (BARate::And(l, r), _) => (l, r, y),
            (_, BARate::And(l, r)) => (l, r, x),
            _ => arbitrary(),
        };
        let first = BARate::Par(l, Rc::new(*other));
        let second = BARate::Par(r, Rc::new(*other));
        assert(d == BARate::Or(Rc::new(first), Rc::new(second)) || d == BARate::And(
            Rc::new(first),
            Rc::new(second),
        ));
        assert(sym_free(&first) && sym_free(&second));
    }
}

/// A rewrite pass makes no `Sym` leaf.
pub proof fn lemma_reduce_step_sym_free(b: &BARate)
    requires
        sym_free(b),
    ensures
        sym_free(&reduce_step_spec(b).0),
    decreases b,
{
    match b {
        BARate::Raw(_) | BARate::Sym(_) => {},
        BARate::Or(x, y) | BARate::And(x, y) => {
            lemma_reduce_step_sym_free(x);
            lemma_reduce_step_sym_free(y);
        },
        BARate::Par(x, y) | BARate::LConcat(x, y) => {
            lemma_distribute_sym_free(x, y);
            if distribute_spec(x, y) is None {
                lemma_reduce_step_sym_free(x);
                lemma_reduce_step_sym_free(y);
            }
        },
    }
}

/// Normalization makes no `Sym` leaf.
pub proof fn lemma_normalize_sym_free(b: &BARate)
    requires
        sym_free(b),
    ensures
        sym_free(&normalize_spec(b)),
    decreases weight(b),
{
    lemma_reduce_step(b);
    lemma_reduce_step_sym_free(b);
    if reduce_step_spec(b).1 {
        lemma_normalize_sym_free(&reduce_step_spec(b).0);
    }
}

/// In a normal form, nothing below a structural node is logical.
pub proof fn lemma_normal_structural(b: &BARate)
    requires
        normal_form(b),
        !is_logical(b),
    ensures
        structural(b),
    decreases b,
{
    match b {
        BARate::Par(x, y) | BARate::LConcat(x, y) => {
            lemma_normal_structural(x);
            lemma_normal_structural(y);
        },
        _ => {},
    }
}

/// A second handle on the term behind `t`. `Rc::clone` copies the pointer
/// and leaves the value it points to alone, so both handles hold one term.
#[verifier::external_body]
pub(crate) fn share(t: &Rc<BARate>) -> (r: Rc<BARate>)
    ensures
        r == *t,
{
    Rc::clone(t)
}

/// The rewrite that applies to a structural node over `x` and `y`, if any.
fn distribute(x: &Rc<BARate>, y: &Rc<BARate>) -> (out: Option<Rc<BARate>>)
    ensures
        out matches Some(d) ==> distribute_spec(x, y) == Some(*d),
        out is None ==> distribute_spec(x, y) is None,
{
    if let BARate::Or(l, r) = &**x {
        let first = Rc::new(BARate::Par(share(l), share(y)));
        let second = Rc::new(BARate::Par(share(r), share(y)));
        Some(Rc::new(BARate::Or(first, second)))
    } else if let BARate::Or(l, r) = &**y {
        let first = Rc::new(BARate::Par(share(l), share(x)));
        let second = Rc::new(BARate::Par(share(r), share(x)));
        Some(Rc::new(BARate::Or(first, second)))
    } else if let BARate::And(l, r) = &**x {
        let first = Rc::new(BARate::Par(share(l), share(y)));
        let second = Rc::new(BARate::Par(share(r), share(y)));
        Some(Rc::new(BARate::And(first, second)))
    } else if let BARate::And(l, r) = &**y {
        let first = Rc::new(BARate::Par(share(l), share(x)));
        let second = Rc::new(BARate::Par(share(r), share(x)));
        Some(Rc::new(BARate::And(first, second)))
    } else {
        None
    }
}

/// Runs one rewrite pass over `bar` and says whether it changed anything.
pub fn reduce_step(bar: &Rc<BARate>) -> (out: (Rc<BARate>, bool))
    ensures
        (*out.0, out.1) == reduce_step_spec(bar),
    decreases **bar,
{
    match &**bar {
        BARate::Raw(_) | BARate::Sym(_) => (share(bar), false),
        BARate::Or(x, y) => {
            let (x2, cx) = reduce_step(x);
            let (y2, cy) = reduce_step(y);
            (Rc::new(BARate::Or(x2, y2)), cx || cy)
        },
        BARate::And(x, y) => {
            let (x2, cx) = reduce_step(x);
            let (y2, cy) = reduce_step(y);
            (Rc::new(BARate::And(x2, y2)), cx || cy)
        },
        BARate::Par(x, y) => match distribute(x, y) {
            Some(d) => (d, true),
            None => {
                let (x2, cx) = reduce_step(x);
                let (y2, cy) = reduce_step(y);
                (Rc::new(BARate::Par(x2, y2)), cx || cy)
            },
        },
        BARate::LConcat(x, y) => match distribute(x, y) {
            Some(d) => (d, true),
            None => {
                let (x2, cx) = reduce_step(x);
                let (y2, cy) = reduce_step(y);
                (Rc::new(BARate::LConcat(x2, y2)), cx || cy)
            },
        },
    }
}

/// Rewrites `bar` until a pass changes nothing. The result is a normal form.
pub fn normalize(bar: Rc<BARate>) -> (out: Rc<BARate>)
    ensures
        *out == normalize_spec(&bar),
        normal_form(&out),
{
    let mut cur = bar;
    loop
        invariant
            normalize_spec(&cur) == normalize_spec(&bar),
        ensures
            *cur == normalize_spec(&bar),
        decreases weight(&cur),
    {
        let (next, changed) = reduce_step(&cur);
        proof {
            lemma_reduce_step(&cur);
        }
        if !changed {
            break ;
        }
        cur = next;
    }
    proof {
        lemma_normalize_normal(&bar);
    }
    cur
}

} // verus!
