//! The decision procedure. Logical combinators are taken apart by logical
//! recursion, two literal rates are compared by the numeric rule, and what
//! is left is a judgment between structural terms, which only a constraint
//! solver can settle. The solver is not part of this crate: a [`Goal`] says
//! which problem it wants solved next, and takes the solver's outcome back.
//! [`Goal::pursue`] and [`stream_sub`] do so in a loop, with a solver that
//! the caller hands them.

use crate::encode::{discharge_spec, discharge_subtyping, lemma_discharge_total, Fatal};
use crate::formula::{Constraints, Problem};
use crate::normal::{
    lemma_normal_structural, lemma_normalize_fixes_normal, lemma_normalize_normal,
    lemma_normalize_sym_free, normal_form, normalize, normalize_spec, share,
};
use crate::rate::{lemma_rate_sub_transitive, rate_sub, rate_sub_spec, Rate};
use crate::stream::{lemma_lower_sym_free, lower, lower_spec, sym_free, BARate, StreamRate, SubRel};
use std::rc::Rc;
use vstd::prelude::*;

verus! {

/// What a solver says of a constraint problem.
#[derive(Clone, Copy, Debug, PartialEq, Eq, Structural)]
pub enum SolverOutcome {
    Sat,
    Unsat,
    Unknown,
}

/// A problem that is satisfiable shows a subtype; one that is not, or of
/// which the solver cannot tell, does not.
pub open spec fn verdict_spec(outcome: SolverOutcome) -> bool {
    outcome is Sat
}

/// What the outcome of a solver means for the judgment whose problem it
/// was given.
pub fn verdict(outcome: SolverOutcome) -> (b: bool)
    ensures
        b == verdict_spec(outcome),
{
    match outcome {
        SolverOutcome::Sat => true,
        SolverOutcome::Unsat => false,
        SolverOutcome::Unknown => false,
    }
}

/// A subtyping question, as far as it has been answered.
#[derive(Debug, PartialEq, Eq)]
pub enum Goal {
    /// An answer.
    Known(bool),
    /// A judgment between two structural terms, left for a solver.
    Ask(Rc<BARate>, Rc<BARate>),
    /// True when either part is. The second part is looked at only when the
    /// first is false.
    Any(Box<Goal>, Box<Goal>),
    /// True when both parts are. The second part is looked at only when the
    /// first is true.
    All(Box<Goal>, Box<Goal>),
}

/// What is to be done next about a [`Goal`].
#[derive(Debug, PartialEq, Eq)]
pub enum Action {
    /// Nothing: this is the answer.
    Done(bool),
    /// This problem is to be solved, and the outcome handed to
    /// [`Goal::answer`].
    Solve(Problem),
    /// Nothing can be done: the goal holds a term that has no encoding.
    Abort(Fatal),
}

/// The mathematical content of an [`Action`].
pub ghost enum ActionView {
    Done(bool),
    Solve(Constraints),
    Abort(Fatal),
}

impl View for Action {
    type V = ActionView;

    open spec fn view(&self) -> ActionView {
        match self {
            Action::Done(b) => ActionView::Done(*b),
            Action::Solve(p) => ActionView::Solve(p@),
            Action::Abort(e) => ActionView::Abort(*e),
        }
    }
}

/// The judgment `x <: y` between two terms without logical combinators:
/// settled by the numeric rule where both are literal rates, left for a
/// solver otherwise.
pub open spec fn rate_sub2_spec(x: &BARate, y: &BARate) -> Goal {
    match (x, y) {
        (BARate::Raw(a), BARate::Raw(b)) => Goal::Known(rate_sub_spec(*a, *b)),
        _ => Goal::Ask(Rc::new(*x), Rc::new(*y)),
    }
}

/// The judgment `x <: y`. A disjunction on the right is taken apart first,
/// then one on the left, then a conjunction on the right, then one on the
/// left; a disjunction gives an `Any` and a conjunction an `All`.
pub open spec fn ba_sub_spec(x: &BARate, y: &BARate) -> Goal
    decreases x, y,
{
    if let BARate::Or(a, b) = y {
        Goal::Any(Box::new(ba_sub_spec(x, a)), Box::new(ba_sub_spec(x, b)))
    } else if let BARate::Or(a, b) = x {
        Goal::Any(Box::new(ba_sub_spec(a, y)), Box::new(ba_sub_spec(b, y)))
    } else if let BARate::And(a, b) = y {
        Goal::All(Box::new(ba_sub_spec(x, a)), Box::new(ba_sub_spec(x, b)))
    } else if let BARate::And(a, b) = x {
        Goal::All(Box::new(ba_sub_spec(a, y)), Box::new(ba_sub_spec(b, y)))
    } else {
        rate_sub2_spec(x, y)
    }
}

/// The question whether `left` is a subtype of `right`: both are lowered,
/// each on its side, and normalized, and the two normal forms are judged.
pub open spec fn is_subtype_spec(left: &StreamRate, right: &StreamRate) -> Goal {
    ba_sub_spec(
        &normalize_spec(&lower_spec(*left, SubRel::Lhs)),
        &normalize_spec(&lower_spec(*right, SubRel::Rhs)),
    )
}

impl Goal {
    /// The answer, where no solver is needed to give it.
    pub open spec fn settled_spec(&self) -> Option<bool>
        decreases self,
    {
        match self {
            Goal::Known(b) => Some(*b),
            Goal::Ask(_, _) => None,
            Goal::Any(f, g) => match f.settled_spec() {
                Some(true) => Some(true),
                Some(false) => g.settled_spec(),
                None => None,
            },
            Goal::All(f, g) => match f.settled_spec() {
                Some(false) => Some(false),
                Some(true) => g.settled_spec(),
                None => None,
            },
        }
    }

    /// What is to be done next: for a settled goal nothing, else the first
    /// judgment that stands in the way is to be encoded and solved.
    pub open spec fn next_spec(&self) -> ActionView
        decreases self,
    {
        match self {
            Goal::Known(b) => ActionView::Done(*b),
            Goal::Ask(x, y) => match discharge_spec(x, y) {
                Ok(c) => ActionView::Solve(c),
                Err(e) => ActionView::Abort(e),
            },
            Goal::Any(f, g) => match f.settled_spec() {
                Some(true) => ActionView::Done(true),
                Some(false) => g.next_spec(),
                None => f.next_spec(),
            },
            Goal::All(f, g) => match f.settled_spec() {
                Some(false) => ActionView::Done(false),
                Some(true) => g.next_spec(),
                None => f.next_spec(),
            },
        }
    }

    /// The goal after `outcome` has come back for the problem that
    /// [`Goal::next_spec`] names: the judgment that stood in the way is
    /// replaced by what the outcome means for it. A goal that asks for no
    /// problem stays as it is.
    pub open spec fn answer_spec(&self, outcome: SolverOutcome) -> Goal
        decreases self,
    {
        match self {
            Goal::Known(b) => Goal::Known(*b),
            Goal::Ask(x, y) => if discharge_spec(x, y) is Ok {
                Goal::Known(verdict_spec(outcome))
            } else {
                *self
            },
            Goal::Any(f, g) => match f.settled_spec() {
                Some(true) => *self,
                Some(false) => Goal::Any(*f, Box::new(g.answer_spec(outcome))),
                None => Goal::Any(Box::new(f.answer_spec(outcome)), *g),
            },
            Goal::All(f, g) => match f.settled_spec() {
                Some(false) => *self,
                Some(true) => Goal::All(*f, Box::new(g.answer_spec(outcome))),
                None => Goal::All(Box::new(f.answer_spec(outcome)), *g),
            },
        }
    }

    /// How many judgments are left for a solver.
    pub open spec fn pending(&self) -> nat
        decreases self,
    {
        match self {
            Goal::Known(_) => 0,
            Goal::Ask(_, _) => 1,
            Goal::Any(f, g) | Goal::All(f, g) => f.pending() + g.pending(),
        }
    }

    /// What the goal comes to with a solver that gives the outcome
    /// `oracle(c)` for the problem `c`.
    pub open spec fn eval(&self, oracle: spec_fn(Constraints) -> SolverOutcome) -> Result<bool, Fatal>
        decreases self,
    {
        match self {
            Goal::Known(b) => Ok(*b),
            Goal::Ask(x, y) => match discharge_spec(x, y) {
                Ok(c) => Ok(verdict_spec(oracle(c))),
                Err(e) => Err(e),
            },
            Goal::Any(f, g) => match f.eval(oracle) {
                Ok(true) => Ok(true),
                Ok(false) => g.eval(oracle),
                Err(e) => Err(e),
            },
            Goal::All(f, g) => match f.eval(oracle) {
                Ok(false) => Ok(false),
                Ok(true) => g.eval(oracle),
                Err(e) => Err(e),
            },
        }
    }

    /// The answer, where no solver is needed to give it.
    pub fn settled(&self) -> (known: Option<bool>)
        ensures
            known == self.settled_spec(),
        decreases self,
    {
        match self {
            Goal::Known(b) => Some(*b),
            Goal::Ask(_, _) => None,
            Goal::Any(f, g) => match f.settled() {
                Some(true) => Some(true),
                Some(false) => g.settled(),
                None => None,
            },
            Goal::All(f, g) => match f.settled() {
                Some(false) => Some(false),
                Some(true) => g.settled(),
                None => None,
            },
        }
    }

    /// Says what is to be done next: nothing, where the goal is settled;
    /// else the problem to hand to a solver, unless the judgment that stands
    /// in the way has no encoding.
    pub fn next(&self) -> (action: Action)
        ensures
            action@ == self.next_spec(),
        decreases self,
    {
        match self {
            Goal::Known(b) => Action::Done(*b),
            Goal::Ask(x, y) => match discharge_subtyping(x, y) {
                Ok(p) => Action::Solve(p),
                Err(e) => Action::Abort(e),
            },
            Goal::Any(f, g) => match f.settled() {
                Some(true) => Action::Done(true),
                Some(false) => g.next(),
                None => f.next(),
            },
            Goal::All(f, g) => match f.settled() {
                Some(false) => Action::Done(false),
                Some(true) => g.next(),
                None => f.next(),
            },
        }
    }

    /// Takes the outcome that a solver gave for the problem that
    /// [`Goal::next`] asked for. A goal that is settled, or that cannot be
    /// pursued, stays as it is.
    pub fn answer(self, outcome: SolverOutcome) -> (goal: Goal)
        ensures
            goal == self.answer_spec(outcome),
        decreases self,
    {
        match self {
            Goal::Known(b) => Goal::Known(b),
            Goal::Ask(x, y) => match discharge_subtyping(&x, &y) {
                Ok(_) => Goal::Known(verdict(outcome)),
                Err(_) => Goal::Ask(x, y),
            },
            Goal::Any(f, g) => match f.settled() {
                Some(true) => Goal::Any(f, g),
                Some(false) => Goal::Any(f, Box::new(g.answer(outcome))),
                None => Goal::Any(Box::new(f.answer(outcome)), g),
            },
            Goal::All(f, g) => match f.settled() {
                Some(false) => Goal::All(f, g),
                Some(true) => Goal::All(f, Box::new(g.answer(outcome))),
                None => Goal::All(Box::new(f.answer(outcome)), g),
            },
        }
    }
}

/// Judges two terms without logical combinators: by the numeric rule where
/// both are literal rates, else by leaving them to a solver.
pub fn rate_sub2(x: &Rc<BARate>, y: &Rc<BARate>) -> (goal: Goal)
    ensures
        goal == rate_sub2_spec(x, y),
{
    match (&**x, &**y) {
        (BARate::Raw(a), BARate::Raw(b)) => Goal::Known(rate_sub(a, b)),
        _ => Goal::Ask(share(x), share(y)),
    }
}

/// Judges `x <: y` as far as logic and the numeric rule go.
pub fn ba_sub(x: &Rc<BARate>, y: &Rc<BARate>) -> (goal: Goal)
    ensures
        goal == ba_sub_spec(x, y),
    decreases **x, **y,
{
    if let BARate::Or(a, b) = &**y {
        Goal::Any(Box::new(ba_sub(x, a)), Box::new(ba_sub(x, b)))
    } else if let BARate::Or(a, b) = &**x {
        Goal::Any(Box::new(ba_sub(a, y)), Box::new(ba_sub(b, y)))
    } else if let BARate::And(a, b) = &**y {
        Goal::All(Box::new(ba_sub(x, a)), Box::new(ba_sub(x, b)))
    } else if let BARate::And(a, b) = &**x {
        Goal::All(Box::new(ba_sub(a, y)), Box::new(ba_sub(b, y)))
    } else {
        rate_sub2(x, y)
    }
}

/// Asks whether every traffic pattern that `left` allows is allowed by
/// `right`. The goal that comes back is settled unless a parallel merge or a
/// sequence has to be judged.
pub fn is_subtype(left: &StreamRate, right: &StreamRate) -> (goal: Goal)
    ensures
        goal == is_subtype_spec(left, right),
{
    let bar_l = normalize(Rc::new(lower(left, SubRel::Lhs)));
    let bar_r = normalize(Rc::new(lower(right, SubRel::Rhs)));
    ba_sub(&bar_l, &bar_r)
}


/// A goal that is settled comes to its answer with every solver, asks for
/// nothing, and has nothing to abort on.
pub proof fn lemma_settled(g: &Goal, oracle: spec_fn(Constraints) -> SolverOutcome)
    ensures
        g.settled_spec() matches Some(b) ==> g.eval(oracle) == Ok::<bool, Fatal>(b)
            && g.next_spec() == ActionView::Done(b),
        g.settled_spec() is None ==> !(g.next_spec() is Done) && g.pending() > 0,
    decreases g,
{
    match g {
        Goal::Known(_) | Goal::Ask(_, _) => {},
        Goal::Any(f, h) | Goal::All(f, h) => {
            lemma_settled(f, oracle);
            lemma_settled(h, oracle);
        },
    }
}

/// Where nothing is left to do, the answer is what the goal comes to, with
/// every solver; where the goal cannot be pursued, it comes to that error.
pub proof fn lemma_next_final(g: &Goal, oracle: spec_fn(Constraints) -> SolverOutcome)
    ensures
        g.next_spec() matches ActionView::Done(b) ==> g.eval(oracle) == Ok::<bool, Fatal>(b),
        g.next_spec() matches ActionView::Abort(e) ==> g.eval(oracle) == Err::<bool, Fatal>(e),
    decreases g,
{
    match g {
        Goal::Known(_) | Goal::Ask(_, _) => {},
        Goal::Any(f, h) | Goal::All(f, h) => {
            lemma_settled(f, oracle);
            lemma_next_final(f, oracle);
            lemma_next_final(h, oracle);
        },
    }
}

/// A goal that asks for no problem is not changed by an outcome.
pub proof fn lemma_answer_unasked(g: &Goal, outcome: SolverOutcome)
    requires
        !(g.next_spec() is Solve),
    ensures
        g.answer_spec(outcome) == *g,
    decreases g,
{
    let oracle = |c: Constraints| outcome;
    match g {
        Goal::Known(_) | Goal::Ask(_, _) => {},
        Goal::Any(f, h) => {
            lemma_settled(f, oracle);
            if f.settled_spec() is None {
                lemma_answer_unasked(f, outcome);
            } else if f.settled_spec() == Some(false) {
                lemma_answer_unasked(h, outcome);
            }
        },
        Goal::All(f, h) => {
            lemma_settled(f, oracle);
            if f.settled_spec() is None {
                lemma_answer_unasked(f, outcome);
            } else if f.settled_spec() == Some(true) {
                lemma_answer_unasked(h, outcome);
            }
        },
    }
}

/// Where a problem is to be solved, taking the solver's outcome for that
/// problem does not change what the goal comes to with that solver.
pub proof fn lemma_answer(g: &Goal, oracle: spec_fn(Constraints) -> SolverOutcome)
    requires
        g.next_spec() is Solve,
    ensures
        g.answer_spec(oracle(g.next_spec()->Solve_0)).eval(oracle) == g.eval(oracle),
    decreases g,
{
    let outcome = oracle(g.next_spec()->Solve_0);
    match g {
        Goal::Known(_) | Goal::Ask(_, _) => {},
        Goal::Any(f, h) => {
            lemma_settled(f, oracle);
            if f.settled_spec() is None {
                lemma_answer(f, oracle);
                assert(g.answer_spec(outcome) == Goal::Any(Box::new(f.answer_spec(outcome)), *h));
            } else {
                lemma_answer(h, oracle);
                assert(g.answer_spec(outcome) == Goal::Any(*f, Box::new(h.answer_spec(outcome))));
            }
        },
        Goal::All(f, h) => {
            lemma_settled(f, oracle);
            if f.settled_spec() is None {
                lemma_answer(f, oracle);
                assert(g.answer_spec(outcome) == Goal::All(Box::new(f.answer_spec(outcome)), *h));
            } else {
                lemma_answer(h, oracle);
                assert(g.answer_spec(outcome) == Goal::All(*f, Box::new(h.answer_spec(outcome))));
            }
        },
    }
}

/// Where a problem is to be solved, taking an outcome leaves one judgment
/// less for the solver.
pub proof fn lemma_answer_progress(g: &Goal, outcome: SolverOutcome)
    requires
        g.next_spec() is Solve,
    ensures
        g.answer_spec(outcome).pending() + 1 == g.pending(),
    decreases g,
{
    let oracle = |c: Constraints| outcome;
    match g {
        Goal::Known(_) | Goal::Ask(_, _) => {},
        Goal::Any(f, h) => {
            lemma_settled(f, oracle);
            if f.settled_spec() is None {
                lemma_answer_progress(f, outcome);
                assert(g.answer_spec(outcome) == Goal::Any(Box::new(f.answer_spec(outcome)), *h));
            } else {
                lemma_answer_progress(h, outcome);
                assert(g.answer_spec(outcome) == Goal::Any(*f, Box::new(h.answer_spec(outcome))));
            }
        },
        Goal::All(f, h) => {
            lemma_settled(f, oracle);
            if f.settled_spec() is None {
                lemma_answer_progress(f, outcome);
                assert(g.answer_spec(outcome) == Goal::All(Box::new(f.answer_spec(outcome)), *h));
            } else {
                lemma_answer_progress(h, outcome);
                assert(g.answer_spec(outcome) == Goal::All(*f, Box::new(h.answer_spec(outcome))));
            }
        },
    }
}

/// Between two literal rates the question is settled by the numeric rule.
pub proof fn lemma_is_subtype_atomic(a: Rate, b: Rate)
    ensures
        is_subtype_spec(&StreamRate::Raw(a), &StreamRate::Raw(b)) == Goal::Known(
            rate_sub_spec(a, b),
        ),
{
    let x = BARate::Raw(a);
    let y = BARate::Raw(b);
    assert(lower_spec(StreamRate::Raw(a), SubRel::Lhs) == x);
    assert(lower_spec(StreamRate::Raw(b), SubRel::Rhs) == y);
    lemma_normalize_fixes_normal(&x);
    lemma_normalize_fixes_normal(&y);
}

/// Subtyping between literal rates is transitive.
pub proof fn lemma_is_subtype_atomic_transitive(
    a: Rate,
    b: Rate,
    c: Rate,
)
    requires
        a.wf(),
        b.wf(),
        c.wf(),
        is_subtype_spec(&StreamRate::Raw(a), &StreamRate::Raw(b)) == Goal::Known(true),
        is_subtype_spec(&StreamRate::Raw(b), &StreamRate::Raw(c)) == Goal::Known(true),
    ensures
        is_subtype_spec(&StreamRate::Raw(a), &StreamRate::Raw(c)) == Goal::Known(true),
{
    lemma_is_subtype_atomic(a, b);
    lemma_is_subtype_atomic(b, c);
    lemma_is_subtype_atomic(a, c);
    lemma_rate_sub_transitive(a, b, c);
}

impl Goal {
    /// Whether every judgment that the goal leaves for a solver has a
    /// constraint problem.
    pub open spec fn answerable(&self) -> bool
        decreases self,
    {
        match self {
            Goal::Known(_) => true,
            Goal::Ask(x, y) => discharge_spec(x, y) is Ok,
            Goal::Any(f, g) | Goal::All(f, g) => f.answerable() && g.answerable(),
        }
    }
}

/// An answerable goal never aborts: it comes to an answer with every
/// solver, has a next step that is not to abort, and stays answerable when
/// an outcome is taken.
pub proof fn lemma_answerable(
    g: &Goal,
    oracle: spec_fn(Constraints) -> SolverOutcome,
    outcome: SolverOutcome,
)
    requires
        g.answerable(),
    ensures
        g.eval(oracle) is Ok,
        !(g.next_spec() is Abort),
        g.answer_spec(outcome).answerable(),
    decreases g,
{
    match g {
        Goal::Known(_) | Goal::Ask(_, _) => {},
        Goal::Any(f, h) | Goal::All(f, h) => {
            lemma_answerable(f, oracle, outcome);
            lemma_answerable(h, oracle, outcome);
        },
    }
}

/// The judgment between two normal forms without `Sym` leaves is answerable.
pub proof fn lemma_ba_sub_answerable(x: &BARate, y: &BARate)
    requires
        normal_form(x),
        normal_form(y),
        sym_free(x),
        sym_free(y),
    ensures
        ba_sub_spec(x, y).answerable(),
    decreases x, y,
{
    if let BARate::Or(a, b) = y {
        lemma_ba_sub_answerable(x, a);
        lemma_ba_sub_answerable(x, b);
    } else if let BARate::Or(a, b) = x {
        lemma_ba_sub_answerable(a, y);
        lemma_ba_sub_answerable(b, y);
    } else if let BARate::And(a, b) = y {
        lemma_ba_sub_answerable(x, a);
        lemma_ba_sub_answerable(x, b);
    } else if let BARate::And(a, b) = x {
        lemma_ba_sub_answerable(a, y);
        lemma_ba_sub_answerable(b, y);
    } else {
        lemma_normal_structural(x);
        lemma_normal_structural(y);
        lemma_discharge_total(x, y);
    }
}

/// The question whether one stream rate is a subtype of another is
/// answerable: no solver can make it abort.
pub proof fn lemma_is_subtype_answerable(left: &StreamRate, right: &StreamRate)
    ensures
        is_subtype_spec(left, right).answerable(),
{
    let x = lower_spec(*left, SubRel::Lhs);
    let y = lower_spec(*right, SubRel::Rhs);
    lemma_lower_sym_free(*left, SubRel::Lhs);
    lemma_lower_sym_free(*right, SubRel::Rhs);
    lemma_normalize_sym_free(&x);
    lemma_normalize_sym_free(&y);
    lemma_normalize_normal(&x);
    lemma_normalize_normal(&y);
    lemma_ba_sub_answerable(&normalize_spec(&x), &normalize_spec(&y));
}

/// Whether `sr` is made of rates and unions alone.
pub open spec fn union_only(sr: StreamRate) -> bool
    decreases sr,
{
    match sr {
        StreamRate::Raw(r) => r.wf(),
        StreamRate::Sum(a, b) => union_only(*a) && union_only(*b),
        _ => false,
    }
}

/// Whether the rate `a` is a subtype of every rate in the union `right`.
pub open spec fn below_all(a: Rate, right: StreamRate) -> bool
    decreases right,
{
    match right {
        StreamRate::Raw(b) => rate_sub_spec(a, b),
        StreamRate::Sum(l, r) => below_all(a, *l) && below_all(a, *r),
        _ => false,
    }
}

/// Whether some rate in the union `left` is a subtype of every rate in the
/// union `right`.
pub open spec fn some_below_all(left: StreamRate, right: StreamRate) -> bool
    decreases left,
{
    match left {
        StreamRate::Raw(a) => below_all(a, right),
        StreamRate::Sum(l, r) => some_below_all(*l, right) || some_below_all(*r, right),
        _ => false,
    }
}

proof fn lemma_union_normal(sr: StreamRate, rel: SubRel)
    requires
        union_only(sr),
    ensures
        normalize_spec(&lower_spec(sr, rel)) == lower_spec(sr, rel),
        normal_form(&lower_spec(sr, rel)),
    decreases sr,
{
    match sr {
        StreamRate::Sum(a, b) => {
            lemma_union_normal(*a, rel);
            lemma_union_normal(*b, rel);
        },
        _ => {},
    }
    lemma_normalize_fixes_normal(&lower_spec(sr, rel));
}

proof fn lemma_judge_rate_against_union(a: Rate, right: StreamRate)
    requires
        union_only(right),
    ensures
        ba_sub_spec(&BARate::Raw(a), &lower_spec(right, SubRel::Rhs)).settled_spec() == Some(
            below_all(a, right),
        ),
    decreases right,
{
    match right {
        StreamRate::Sum(l, r) => {
            lemma_judge_rate_against_union(a, *l);
            lemma_judge_rate_against_union(a, *r);
        },
        _ => {},
    }
}

proof fn lemma_judge_unions(left: StreamRate, right: StreamRate)
    requires
        union_only(left),
        union_only(right),
    ensures
        ba_sub_spec(
            &lower_spec(left, SubRel::Lhs),
            &lower_spec(right, SubRel::Rhs),
        ).settled_spec() == Some(some_below_all(left, right)),
    decreases left,
{
    let y = lower_spec(right, SubRel::Rhs);
    assert(!(y is Or));
    match left {
        StreamRate::Raw(a) => {
            lemma_judge_rate_against_union(a, right);
        },
        StreamRate::Sum(l, r) => {
            lemma_judge_unions(*l, right);
            lemma_judge_unions(*r, right);
        },
        _ => {},
    }
}

/// Between two unions of rates the question is settled without a solver:
/// the left union is a subtype exactly where one of its rates is a subtype
/// of every rate of the right union.
pub proof fn lemma_is_subtype_unions(left: StreamRate, right: StreamRate)
    requires
        union_only(left),
        union_only(right),
    ensures
        is_subtype_spec(&left, &right).settled_spec() == Some(some_below_all(left, right)),
{
    lemma_union_normal(left, SubRel::Lhs);
    lemma_union_normal(right, SubRel::Rhs);
    lemma_judge_unions(left, right);
}

proof fn lemma_below_all_lifts(a: Rate, b: Rate, right: StreamRate)
    requires
        a.wf(),
        b.wf(),
        union_only(right),
        rate_sub_spec(a, b),
        below_all(b, right),
    ensures
        below_all(a, right),
    decreases right,
{
    match right {
        StreamRate::Raw(c) => {
            lemma_rate_sub_transitive(a, b, c);
        },
        StreamRate::Sum(l, r) => {
            lemma_below_all_lifts(a, b, *l);
            lemma_below_all_lifts(a, b, *r);
        },
        _ => {},
    }
}

proof fn lemma_below_all_chains(a: Rate, middle: StreamRate, right: StreamRate)
    requires
        a.wf(),
        union_only(middle),
        union_only(right),
        below_all(a, middle),
        some_below_all(middle, right),
    ensures
        below_all(a, right),
    decreases middle,
{
    match middle {
        StreamRate::Raw(b) => {
            lemma_below_all_lifts(a, b, right);
        },
        StreamRate::Sum(l, r) => {
            if some_below_all(*l, right) {
                lemma_below_all_chains(a, *l, right);
            } else {
                lemma_below_all_chains(a, *r, right);
            }
        },
        _ => {},
    }
}

proof fn lemma_some_below_all_chains(left: StreamRate, middle: StreamRate, right: StreamRate)
    requires
        union_only(left),
        union_only(middle),
        union_only(right),
        some_below_all(left, middle),
        some_below_all(middle, right),
    ensures
        some_below_all(left, right),
    decreases left,
{
    match left {
        StreamRate::Raw(a) => {
            lemma_below_all_chains(a, middle, right);
        },
        StreamRate::Sum(l, r) => {
            if some_below_all(*l, middle) {
                lemma_some_below_all_chains(*l, middle, right);
            } else {
                lemma_some_below_all_chains(*r, middle, right);
            }
        },
        _ => {},
    }
}

/// Subtyping between unions of rates is transitive.
pub proof fn lemma_is_subtype_unions_transitive(
    left: StreamRate,
    middle: StreamRate,
    right: StreamRate,
)
    requires
        union_only(left),
        union_only(middle),
        union_only(right),
        is_subtype_spec(&left, &middle).settled_spec() == Some(true),
        is_subtype_spec(&middle, &right).settled_spec() == Some(true),
    ensures
        is_subtype_spec(&left, &right).settled_spec() == Some(true),
{
    lemma_is_subtype_unions(left, middle);
    lemma_is_subtype_unions(middle, right);
    lemma_is_subtype_unions(left, right);
    lemma_some_below_all_chains(left, middle, right);
}

/// Whether `solve` gives for every problem the outcome that `oracle` gives.
pub open spec fn answers_as<F: Fn(&Problem) -> SolverOutcome>(
    solve: F,
    oracle: spec_fn(Constraints) -> SolverOutcome,
) -> bool {
    forall|p: &Problem, o: SolverOutcome| #[trigger] call_ensures(solve, (p,), o) ==> o == oracle(p@)
}

impl Goal {
    /// Pursues the goal to its end with the solver `solve`: asks it for the
    /// outcome of each problem that stands in the way, in turn, and gives
    /// the answer that the goal comes to, or the reason why it cannot be
    /// pursued. A goal that is settled has its answer without the solver.
    pub fn pursue<F: Fn(&Problem) -> SolverOutcome>(self, solve: F) -> (r: Result<bool, Fatal>)
        requires
            forall|p: &Problem| #[trigger] call_requires(solve, (p,)),
        ensures
            forall|oracle: spec_fn(Constraints) -> SolverOutcome| #[trigger]
                answers_as(solve, oracle) ==> r == self.eval(oracle),
            self.answerable() ==> r is Ok,
            self.settled_spec() matches Some(b) ==> r == Ok::<bool, Fatal>(b),
    {
        let mut goal = self;
        loop
            invariant
                forall|p: &Problem| #[trigger] call_requires(solve, (p,)),
                forall|oracle: spec_fn(Constraints) -> SolverOutcome| #[trigger]
                    answers_as(solve, oracle) ==> goal.eval(oracle) == self.eval(oracle),
                self.answerable() ==> goal.answerable(),
                self.settled_spec() is Some ==> goal == self,
            decreases goal.pending(),
        {
            proof {
                lemma_settled(&goal, |c: Constraints| SolverOutcome::Sat);
            }
            match goal.next() {
                Action::Done(answer) => {
                    proof {
                        assert forall|oracle: spec_fn(Constraints) -> SolverOutcome| #[trigger]
                            answers_as(solve, oracle) implies Ok::<bool, Fatal>(answer)
                            == self.eval(oracle) by {
                            lemma_next_final(&goal, oracle);
                        }
                    }
                    return Ok(answer);
                },
                Action::Abort(why) => {
                    proof {
                        assert forall|oracle: spec_fn(Constraints) -> SolverOutcome| #[trigger]
                            answers_as(solve, oracle) implies Err::<bool, Fatal>(why)
                            == self.eval(oracle) by {
                            lemma_next_final(&goal, oracle);
                        }
                        if goal.answerable() {
                            lemma_answerable(&goal, |c: Constraints| SolverOutcome::Sat, SolverOutcome::Sat);
                        }
                    }
                    return Err(why);
                },
                Action::Solve(problem) => {
                    let outcome = solve(&problem);
                    proof {
                        assert forall|oracle: spec_fn(Constraints) -> SolverOutcome| #[trigger]
                            answers_as(solve, oracle) implies goal.answer_spec(outcome).eval(oracle)
                            == self.eval(oracle) by {
                            assert(call_ensures(solve, (&problem,), outcome));
                            lemma_answer(&goal, oracle);
                        }
                        lemma_answer_progress(&goal, outcome);
                        if goal.answerable() {
                            lemma_answerable(&goal, |c: Constraints| outcome, outcome);
                        }
                    }
                    goal = goal.answer(outcome);
                },
            }
        }
    }
}

/// Decides with the solver `solve` whether every traffic pattern that
/// `left` allows is allowed by `right`. Where the question is settled
/// without a solver, as it is between two rates, the solver is not asked.
pub fn stream_sub<F: Fn(&Problem) -> SolverOutcome>(
    left: &StreamRate,
    right: &StreamRate,
    solve: F,
) -> (holds: bool)
    requires
        forall|p: &Problem| #[trigger] call_requires(solve, (p,)),
    ensures
        forall|oracle: spec_fn(Constraints) -> SolverOutcome| #[trigger]
            answers_as(solve, oracle) ==> is_subtype_spec(left, right).eval(oracle) == Ok::<
                bool,
                Fatal,
            >(holds),
        is_subtype_spec(left, right).settled_spec() matches Some(b) ==> holds == b,
{
    let goal = is_subtype(left, right);
    proof {
        lemma_is_subtype_answerable(left, right);
    }
    match goal.pursue(solve) {
        Ok(answer) => answer,
        Err(_) => vstd::pervasive::unreached(),
    }
}

} // verus!
