//! Integer constraint problems: what the encoder writes and a solver reads.

use vstd::prelude::*;

verus! {

/// An integer-valued term over the variables of a problem.
#[derive(Debug, PartialEq, Eq)]
pub enum Term {
    Const(u64),
    Var(usize),
    Add(Box<Term>, Box<Term>),
    Mul(Box<Term>, Box<Term>),
    /// The quotient, rounded down.
    Div(Box<Term>, Box<Term>),
    /// The remainder that goes with `Div`.
    Rem(Box<Term>, Box<Term>),
}

/// A boolean combination of comparisons between terms.
#[derive(Debug, PartialEq, Eq)]
pub enum Formula {
    Bool(bool),
    Eq(Term, Term),
    Le(Term, Term),
    Lt(Term, Term),
    Not(Box<Formula>),
    And(Box<Formula>, Box<Formula>),
    Or(Box<Formula>, Box<Formula>),
    Implies(Box<Formula>, Box<Formula>),
}

impl Term {
    /// The sum of two terms.
    #[verifier::allow_in_spec]
    pub fn plus(a: Term, b: Term) -> Term
        returns
            Term::Add(Box::new(a), Box::new(b)),
    {
        Term::Add(Box::new(a), Box::new(b))
    }

    /// The product of two terms.
    #[verifier::allow_in_spec]
    pub fn times(a: Term, b: Term) -> Term
        returns
            Term::Mul(Box::new(a), Box::new(b)),
    {
        Term::Mul(Box::new(a), Box::new(b))
    }

    /// The quotient of two terms, rounded down.
    #[verifier::allow_in_spec]
    pub fn over(a: Term, b: Term) -> Term
        returns
            Term::Div(Box::new(a), Box::new(b)),
    {
        Term::Div(Box::new(a), Box::new(b))
    }

    /// The remainder of the first term by the second.
    #[verifier::allow_in_spec]
    pub fn modulo(a: Term, b: Term) -> Term
        returns
            Term::Rem(Box::new(a), Box::new(b)),
    {
        Term::Rem(Box::new(a), Box::new(b))
    }

    /// A copy of the term.
    pub fn duplicate(&self) -> (t: Term)
        ensures
            t == *self,
        decreases self,
    {
        match self {
            Term::Const(k) => Term::Const(*k),
            Term::Var(i) => Term::Var(*i),
            Term::Add(a, b) => Term::plus(a.duplicate(), b.duplicate()),
            Term::Mul(a, b) => Term::times(a.duplicate(), b.duplicate()),
            Term::Div(a, b) => Term::over(a.duplicate(), b.duplicate()),
            Term::Rem(a, b) => Term::modulo(a.duplicate(), b.duplicate()),
        }
    }

    /// Whether every variable of the term is among the first `vars`.
    pub open spec fn closed(&self, vars: nat) -> bool
        decreases self,
    {
        match self {
            Term::Const(_) => true,
            Term::Var(i) => *i < vars,
            Term::Add(a, b) | Term::Mul(a, b) | Term::Div(a, b) | Term::Rem(a, b) => a.closed(vars)
                && b.closed(vars),
        }
    }

    /// The value of the term where variable `i` is `env[i]`. A quotient or
    /// remainder by zero has no fixed value.
    pub open spec fn value(&self, env: Seq<int>) -> int
        decreases self,
    {
        match self {
            Term::Const(k) => *k as int,
            Term::Var(i) => env[*i as int],
            Term::Add(a, b) => a.value(env) + b.value(env),
            Term::Mul(a, b) => a.value(env) * b.value(env),
            Term::Div(a, b) => a.value(env) / b.value(env),
            Term::Rem(a, b) => a.value(env) % b.value(env),
        }
    }
}

impl Formula {
    /// The formula that holds where `f` does not.
    #[verifier::allow_in_spec]
    pub fn negation(f: Formula) -> Formula
        returns
            Formula::Not(Box::new(f)),
    {
        Formula::Not(Box::new(f))
    }

    /// The formula that holds where `f` and `g` hold.
    #[verifier::allow_in_spec]
    pub fn both(f: Formula, g: Formula) -> Formula
        returns
            Formula::And(Box::new(f), Box::new(g)),
    {
        Formula::And(Box::new(f), Box::new(g))
    }

    /// The formula that holds where `f` or `g` holds.
    #[verifier::allow_in_spec]
    pub fn either(f: Formula, g: Formula) -> Formula
        returns
            Formula::Or(Box::new(f), Box::new(g)),
    {
        Formula::Or(Box::new(f), Box::new(g))
    }

    /// The formula that holds where `g` holds or `f` does not.
    #[verifier::allow_in_spec]
    pub fn implies(f: Formula, g: Formula) -> Formula
        returns
            Formula::Implies(Box::new(f), Box::new(g)),
    {
        Formula::Implies(Box::new(f), Box::new(g))
    }

    /// Whether every variable of the formula is among the first `vars`.
    pub open spec fn closed(&self, vars: nat) -> bool
        decreases self,
    {
        match self {
            Formula::Bool(_) => true,
            Formula::Eq(a, b) | Formula::Le(a, b) | Formula::Lt(a, b) => a.closed(vars) && b.closed(
                vars,
            ),
            Formula::Not(f) => f.closed(vars),
            Formula::And(f, g) | Formula::Or(f, g) | Formula::Implies(f, g) => f.closed(vars)
                && g.closed(vars),
        }
    }

    /// Whether the formula is true where variable `i` is `env[i]`.
    pub open spec fn holds(&self, env: Seq<int>) -> bool
        decreases self,
    {
        match self {
            Formula::Bool(b) => *b,
            Formula::Eq(a, b) => a.value(env) == b.value(env),
            Formula::Le(a, b) => a.value(env) <= b.value(env),
            Formula::Lt(a, b) => a.value(env) < b.value(env),
            Formula::Not(f) => !f.holds(env),
            Formula::And(f, g) => f.holds(env) && g.holds(env),
            Formula::Or(f, g) => f.holds(env) || g.holds(env),
            Formula::Implies(f, g) => f.holds(env) ==> g.holds(env),
        }
    }
}

/// The mathematical content of a [`Problem`]: how many variables it has
/// declared, and what it asserts of them, in the order of assertion.
pub ghost struct Constraints {
    pub vars: nat,
    pub assertions: Seq<Formula>,
}

impl Constraints {
    /// No variable and no assertion.
    pub open spec fn empty() -> Constraints {
        Constraints { vars: 0, assertions: Seq::empty() }
    }

    /// Whether every assertion speaks of declared variables only.
    pub open spec fn closed(self) -> bool {
        forall|i: int| 0 <= i < self.assertions.len() ==> (#[trigger] self.assertions[i]).closed(
            self.vars,
        )
    }

    /// Whether `env` gives every variable a value under which every
    /// assertion holds.
    pub open spec fn satisfied_by(self, env: Seq<int>) -> bool {
        &&& env.len() == self.vars
        &&& forall|i: int| 0 <= i < self.assertions.len() ==> (#[trigger] self.assertions[i]).holds(env)
    }

    /// Whether some values of the variables make every assertion hold.
    pub open spec fn satisfiable(self) -> bool {
        exists|env: Seq<int>| self.satisfied_by(env)
    }

    /// One more assertion.
    pub open spec fn assert_also(self, f: Formula) -> Constraints {
        Constraints { vars: self.vars, assertions: self.assertions.push(f) }
    }

    /// Two more variables, which stand for the events and the window of a
    /// rate: the first is asserted to be at least 0, the second at least 1.
    pub open spec fn declare_rate(self) -> Constraints {
        Constraints {
            vars: self.vars + 2,
            assertions: self.assertions.push(
                Formula::Le(Term::Const(0), Term::Var(self.vars as usize)),
            ).push(Formula::Le(Term::Const(1), Term::Var((self.vars + 1) as usize))),
        }
    }
}

/// A constraint problem under construction or ready for a solver: integer
/// variables numbered from zero, and formulas asserted of them.
#[derive(Debug, PartialEq, Eq)]
pub struct Problem {
    vars: usize,
    assertions: Vec<Formula>,
}

impl View for Problem {
    type V = Constraints;

    closed spec fn view(&self) -> Constraints {
        Constraints { vars: self.vars as nat, assertions: self.assertions@ }
    }
}

impl Problem {
    /// Variables are only declared two at a time, each pair together with
    /// two assertions, so their number stays within what a `usize` holds.
    #[verifier::type_invariant]
    closed spec fn bounded(self) -> bool {
        self.vars <= self.assertions@.len()
    }

    /// The problem without variables and assertions.
    pub fn new() -> (p: Problem)
        ensures
            p@ == Constraints::empty(),
    {
        Problem { vars: 0, assertions: Vec::new() }
    }

    /// The number of variables declared so far.
    pub fn vars(&self) -> (n: usize)
        ensures
            n == self@.vars,
    {
        self.vars
    }

    /// The assertions made so far, oldest first.
    pub fn assertions(&self) -> (a: &Vec<Formula>)
        ensures
            a@ == self@.assertions,
    {
        &self.assertions
    }

    /// The same problem with `f` asserted as well.
    pub fn assert_also(self, f: Formula) -> (p: Problem)
        ensures
            p@ == self@.assert_also(f),
    {
        proof {
            use_type_invariant(&self);
        }
        let Problem { vars, mut assertions } = self;
        assertions.push(f);
        Problem { vars, assertions }
    }

    /// The same problem with two more variables, which stand for the events
    /// and the window of a rate. The events are asserted to be at least 0
    /// and the window at least 1. The new variables are the last two.
    pub fn declare_rate(self) -> (p: Problem)
        ensures
            p@ == self@.declare_rate(),
    {
        proof {
            use_type_invariant(&self);
        }
        let Problem { vars, mut assertions } = self;
        // There are no more variables than assertions, and the number of
        // assertions is a `usize`: so is the number of variables.
        assertions.push(Formula::Le(Term::Const(0), Term::Var(vars)));
        let one_more = assertions.len();
        assert(vars < one_more);
        assertions.push(Formula::Le(Term::Const(1), Term::Var(vars + 1)));
        let two_more = assertions.len();
        assert(vars + 1 < two_more);
        Problem { vars: vars + 2, assertions }
    }
}

/// The values of `model` as integers.
pub open spec fn integers(model: Seq<i128>) -> Seq<int> {
    model.map_values(|v: i128| v as int)
}

impl Term {
    /// The value of the term where variable `i` is `model[i]`, if every
    /// variable has a value, no divisor is 0 and every intermediate result
    /// fits into 128 bits.
    pub open spec fn checked_value(&self, model: Seq<i128>) -> Option<i128>
        decreases self,
    {
        match self {
            Term::Const(k) => Some(*k as i128),
            Term::Var(i) => if *i < model.len() {
                Some(model[*i as int])
            } else {
                None
            },
            Term::Add(a, b) => match (a.checked_value(model), b.checked_value(model)) {
                (Some(x), Some(y)) => x.checked_add(y),
                _ => None,
            },
            Term::Mul(a, b) => match (a.checked_value(model), b.checked_value(model)) {
                (Some(x), Some(y)) => x.checked_mul(y),
                _ => None,
            },
            Term::Div(a, b) => match (a.checked_value(model), b.checked_value(model)) {
                (Some(x), Some(y)) => x.checked_div_euclid(y),
                _ => None,
            },
            Term::Rem(a, b) => match (a.checked_value(model), b.checked_value(model)) {
                (Some(x), Some(y)) => x.checked_rem_euclid(y),
                _ => None,
            },
        }
    }

    /// Computes the value of the term under `model`.
    pub fn evaluate(&self, model: &[i128]) -> (v: Option<i128>)
        ensures
            v == self.checked_value(model@),
        decreases self,
    {
        match self {
            Term::Const(k) => Some(*k as i128),
            Term::Var(i) => if *i < model.len() {
                Some(model[*i])
            } else {
                None
            },
            Term::Add(a, b) => match (a.evaluate(model), b.evaluate(model)) {
                (Some(x), Some(y)) => x.checked_add(y),
                _ => None,
            },
            Term::Mul(a, b) => match (a.evaluate(model), b.evaluate(model)) {
                (Some(x), Some(y)) => x.checked_mul(y),
                _ => None,
            },
            Term::Div(a, b) => match (a.evaluate(model), b.evaluate(model)) {
                (Some(x), Some(y)) => x.checked_div_euclid(y),
                _ => None,
            },
            Term::Rem(a, b) => match (a.evaluate(model), b.evaluate(model)) {
                (Some(x), Some(y)) => x.checked_rem_euclid(y),
                _ => None,
            },
        }
    }

    /// A value that was computed is the value of the term.
    pub proof fn lemma_checked_value(&self, model: Seq<i128>)
        ensures
            self.checked_value(model) matches Some(v) ==> v == self.value(integers(model)),
        decreases self,
    {
        match self {
            Term::Const(_) | Term::Var(_) => {},
            Term::Add(a, b) | Term::Mul(a, b) | Term::Div(a, b) | Term::Rem(a, b) => {
                a.lemma_checked_value(model);
                b.lemma_checked_value(model);
            },
        }
    }
}

impl Formula {
    /// Whether the formula is true where variable `i` is `model[i]`, as far
    /// as that can be computed. The second part of a conjunction is looked
    /// at only where the first is true, that of a disjunction only where the
    /// first is false, and the conclusion of an implication only where its
    /// premise is true.
    pub open spec fn checked_holds(&self, model: Seq<i128>) -> Option<bool>
        decreases self,
    {
        match self {
            Formula::Bool(b) => Some(*b),
            Formula::Eq(a, b) => match (a.checked_value(model), b.checked_value(model)) {
                (Some(x), Some(y)) => Some(x == y),
                _ => None,
            },
            Formula::Le(a, b) => match (a.checked_value(model), b.checked_value(model)) {
                (Some(x), Some(y)) => Some(x <= y),
                _ => None,
            },
            Formula::Lt(a, b) => match (a.checked_value(model), b.checked_value(model)) {
                (Some(x), Some(y)) => Some(x < y),
                _ => None,
            },
            Formula::Not(f) => match f.checked_holds(model) {
                Some(b) => Some(!b),
                None => None,
            },
            Formula::And(f, g) => match f.checked_holds(model) {
                Some(true) => g.checked_holds(model),
                other => other,
            },
            Formula::Or(f, g) => match f.checked_holds(model) {
                Some(false) => g.checked_holds(model),
                other => other,
            },
            Formula::Implies(f, g) => match f.checked_holds(model) {
                Some(true) => g.checked_holds(model),
                Some(false) => Some(true),
                None => None,
            },
        }
    }

    /// Computes whether the formula is true under `model`.
    pub fn check(&self, model: &[i128]) -> (b: Option<bool>)
        ensures
            b == self.checked_holds(model@),
        decreases self,
    {
        match self {
            Formula::Bool(b) => Some(*b),
            Formula::Eq(a, b) => match (a.evaluate(model), b.evaluate(model)) {
                (Some(x), Some(y)) => Some(x == y),
                _ => None,
            },
            Formula::Le(a, b) => match (a.evaluate(model), b.evaluate(model)) {
                (Some(x), Some(y)) => Some(x <= y),
                _ => None,
            },
            Formula::Lt(a, b) => match (a.evaluate(model), b.evaluate(model)) {
                (Some(x), Some(y)) => Some(x < y),
                _ => None,
            },
            Formula::Not(f) => match f.check(model) {
                Some(b) => Some(!b),
                None => None,
            },
            Formula::And(f, g) => match f.check(model) {
                Some(true) => g.check(model),
                other => other,
            },
            Formula::Or(f, g) => match f.check(model) {
                Some(false) => g.check(model),
                other => other,
            },
            Formula::Implies(f, g) => match f.check(model) {
                Some(true) => g.check(model),
                Some(false) => Some(true),
                None => None,
            },
        }
    }

    /// What was computed of the formula is so.
    pub proof fn lemma_checked_holds(&self, model: Seq<i128>)
        ensures
            self.checked_holds(model) matches Some(b) ==> b == self.holds(integers(model)),
        decreases self,
    {
        match self {
            Formula::Bool(_) => {},
            Formula::Eq(a, b) | Formula::Le(a, b) | Formula::Lt(a, b) => {
                a.lemma_checked_value(model);
                b.lemma_checked_value(model);
            },
            Formula::Not(f) => {
                f.lemma_checked_holds(model);
            },
            Formula::And(f, g) | Formula::Or(f, g) | Formula::Implies(f, g) => {
                f.lemma_checked_holds(model);
                g.lemma_checked_holds(model);
            },
        }
    }
}

impl Constraints {
    /// Whether `model` satisfies the assertions from the `i`-th on, as far
    /// as that can be computed: the first assertion that is not found true
    /// decides.
    pub open spec fn checked_from(self, model: Seq<i128>, i: int) -> Option<bool>
        decreases self.assertions.len() - i,
    {
        if 0 <= i < self.assertions.len() {
            match self.assertions[i].checked_holds(model) {
                Some(true) => self.checked_from(model, i + 1),
                other => other,
            }
        } else {
            Some(true)
        }
    }

    /// Whether `model` is a witness of the problem, as far as that can be
    /// computed. A model of the wrong length is none.
    pub open spec fn accepts_spec(self, model: Seq<i128>) -> Option<bool> {
        if model.len() != self.vars {
            Some(false)
        } else {
            self.checked_from(model, 0)
        }
    }

    /// What was computed of the assertions from the `i`-th on is so.
    pub proof fn lemma_checked_from(self, model: Seq<i128>, i: int)
        requires
            0 <= i,
        ensures
            self.checked_from(model, i) == Some(true) ==> forall|k: int|
                i <= k < self.assertions.len() ==> (#[trigger] self.assertions[k]).holds(
                    integers(model),
                ),
            self.checked_from(model, i) == Some(false) ==> exists|k: int|
                i <= k < self.assertions.len() && !(#[trigger] self.assertions[k]).holds(
                    integers(model),
                ),
        decreases self.assertions.len() - i,
    {
        if i < self.assertions.len() {
            self.assertions[i].lemma_checked_holds(model);
            self.lemma_checked_from(model, i + 1);
            if self.checked_from(model, i) == Some(false) {
                if self.assertions[i].checked_holds(model) == Some(false) {
                    assert(!self.assertions[i].holds(integers(model)));
                } else {
                    let k = choose|k: int|
                        i + 1 <= k < self.assertions.len() && !(#[trigger] self.assertions[k]).holds(
                            integers(model),
                        );
                    assert(!self.assertions[k].holds(integers(model)));
                }
            }
        }
    }

    /// A model that was found to be a witness satisfies the problem, and
    /// one that was found to be none does not.
    pub proof fn lemma_accepts(self, model: Seq<i128>)
        ensures
            self.accepts_spec(model) == Some(true) ==> self.satisfied_by(integers(model)),
            self.accepts_spec(model) == Some(false) ==> !self.satisfied_by(integers(model)),
    {
        self.lemma_checked_from(model, 0);
    }
}

impl Problem {
    /// Checks a model that a solver has given for the problem: `Some(true)`
    /// where it satisfies every assertion, `Some(false)` where it breaks
    /// one or has not one value for each variable, `None` where an assertion
    /// cannot be computed under it.
    pub fn accepts(&self, model: &[i128]) -> (b: Option<bool>)
        ensures
            b == self@.accepts_spec(model@),
    {
        if model.len() != self.vars {
            return Some(false);
        }
        let mut i: usize = 0;
        while i < self.assertions.len()
            invariant
                i <= self.assertions@.len(),
                model@.len() == self@.vars,
                self@.checked_from(model@, i as int) == self@.checked_from(model@, 0),
            decreases self.assertions@.len() - i,
        {
            match self.assertions[i].check(model) {
                Some(true) => {},
                other => {
                    return other;
                },
            }
            i += 1;
        }
        Some(true)
    }
}

/// A term that speaks of the first `n` variables only speaks of the first
/// `m` only, where `m` is no less.
pub proof fn lemma_term_closed_more(t: &Term, n: nat, m: nat)
    requires
        t.closed(n),
        n <= m,
    ensures
        t.closed(m),
    decreases t,
{
    match t {
        Term::Const(_) | Term::Var(_) => {},
        Term::Add(a, b) | Term::Mul(a, b) | Term::Div(a, b) | Term::Rem(a, b) => {
            lemma_term_closed_more(a, n, m);
            lemma_term_closed_more(b, n, m);
        },
    }
}

/// A formula that speaks of the first `n` variables only speaks of the
/// first `m` only, where `m` is no less.
pub proof fn lemma_formula_closed_more(f: &Formula, n: nat, m: nat)
    requires
        f.closed(n),
        n <= m,
    ensures
        f.closed(m),
    decreases f,
{
    match f {
        Formula::Bool(_) => {},
        Formula::Eq(a, b) | Formula::Le(a, b) | Formula::Lt(a, b) => {
            lemma_term_closed_more(a, n, m);
            lemma_term_closed_more(b, n, m);
        },
        Formula::Not(g) => {
            lemma_formula_closed_more(g, n, m);
        },
        Formula::And(g, h) | Formula::Or(g, h) | Formula::Implies(g, h) => {
            lemma_formula_closed_more(g, n, m);
            lemma_formula_closed_more(h, n, m);
        },
    }
}

impl Constraints {
    /// Asserting a formula over declared variables keeps a problem closed.
    pub proof fn lemma_assert_also_closed(self, f: Formula)
        requires
            self.closed(),
            f.closed(self.vars),
        ensures
            self.assert_also(f).closed(),
    {
    }

    /// Declaring a rate keeps a problem closed.
    pub proof fn lemma_declare_rate_closed(self)
        requires
            self.closed(),
        ensures
            self.declare_rate().closed(),
    {
        let after = self.declare_rate();
        assert forall|i: int| 0 <= i < after.assertions.len() implies (
        #[trigger] after.assertions[i]).closed(after.vars) by {
            if i < self.assertions.len() {
                assert(after.assertions[i] == self.assertions[i]);
                lemma_formula_closed_more(&self.assertions[i], self.vars, after.vars);
            }
        }
    }
}

} // verus!
