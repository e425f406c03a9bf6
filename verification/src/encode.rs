//! The symbolic encoding: a structural term becomes rates whose events and
//! windows are variables, bound by the laws of window conversion, and a
//! judgment between two such terms becomes one constraint problem.

use crate::formula::{Constraints, Formula, Problem, Term};
use crate::rate::{
    ceil_div, lemma_ceil_div_least, lemma_rate_of, lemma_rate_sub_as_product, rate_sub_spec, Rate,
};
use crate::normal::structural;
use crate::stream::{sym_free, BARate, SubRel, SymRate, SymRateView};
use vstd::prelude::*;

verus! {

/// Why no constraint problem could be written for a term.
#[derive(Clone, Copy, Debug, PartialEq, Eq, Structural)]
pub enum Fatal {
    /// An `Or` or `And` stands where only structural terms may stand.
    LogicalOperand,
    /// A `Sym` leaf names a variable that the problem has not declared.
    UndeclaredVariable,
}

/// How two symbolic rates are put together.
#[derive(Clone, Copy, Debug, PartialEq, Eq, Structural)]
pub enum Pairing {
    /// The parallel merge of the two, on the given side of the judgment.
    Merge(SubRel),
    /// The period that spans the end of the first and the start of the second.
    Cross,
    /// The first as a subtype of the second.
    Compare,
}

/// `n == rest + base * ceil(a / b)` on the left of a judgment and
/// `n == rest + base / ceil(a / b)` on the right, where `rest` counts as 0
/// if there is none. The ceiling is written as a case split on whether `b`
/// divides `a`.
pub open spec fn conversion_spec(
    rel: SubRel,
    n: usize,
    rest: Option<usize>,
    base: Term,
    a: Term,
    b: Term,
) -> Formula {
    let exact = scaled_spec(rel, rest, base, Term::over(a, b));
    let rounded = scaled_spec(rel, rest, base, Term::plus(Term::over(a, b), Term::Const(1)));
    Formula::both(
        Formula::implies(
            Formula::Eq(Term::modulo(a, b), Term::Const(0)),
            Formula::Eq(Term::Var(n), exact),
        ),
        Formula::implies(
            Formula::negation(Formula::Eq(Term::modulo(a, b), Term::Const(0))),
            Formula::Eq(Term::Var(n), rounded),
        ),
    )
}

/// `rest + base * factor` on the left of a judgment, `rest + base / factor`
/// on the right.
pub open spec fn scaled_spec(rel: SubRel, rest: Option<usize>, base: Term, factor: Term) -> Term {
    let share = match rel {
        SubRel::Lhs => Term::times(base, factor),
        SubRel::Rhs => Term::over(base, factor),
    };
    match rest {
        Some(r) => Term::plus(Term::Var(r), share),
        None => share,
    }
}

/// The window-conversion law of a literal rate of `e` events per `w`, seen
/// through a window `t` as `n` events. On the left of a judgment a window no
/// longer than `w` leaves the events as they are and a longer one multiplies
/// them by `ceil(t / w)`; on the right a window no shorter than `w` leaves
/// them as they are and a shorter one divides them by `ceil(w / t)`.
pub open spec fn raw_law_spec(rel: SubRel, e: u64, w: u64, n: usize, t: usize) -> Formula {
    match rel {
        SubRel::Lhs => Formula::both(
            Formula::implies(
                Formula::Le(Term::Var(t), Term::Const(w)),
                Formula::Eq(Term::Var(n), Term::Const(e)),
            ),
            Formula::implies(
                Formula::Le(Term::Const(w), Term::Var(t)),
                conversion_spec(rel, n, None, Term::Const(e), Term::Var(t), Term::Const(w)),
            ),
        ),
        SubRel::Rhs => Formula::both(
            Formula::implies(
                Formula::Le(Term::Const(w), Term::Var(t)),
                Formula::Eq(Term::Var(n), Term::Const(e)),
            ),
            Formula::implies(
                Formula::Le(Term::Var(t), Term::Const(w)),
                conversion_spec(rel, n, None, Term::Const(e), Term::Const(w), Term::Var(t)),
            ),
        ),
    }
}

/// What a merge does where the window `ts` of one side is shorter than the
/// window `tb` of the other. On the left of a judgment the merged window is
/// the longer one, and the events of the shorter side are multiplied by
/// `ceil(tb / ts)` before they are added; on the right the merged window is
/// the shorter one, and the events of the longer side are divided by
/// `ceil(tb / ts)` before they are added.
pub open spec fn merge_case_spec(
    rel: SubRel,
    ns: usize,
    ts: usize,
    nb: usize,
    tb: usize,
    n: usize,
    t: usize,
) -> Formula {
    Formula::implies(
        Formula::Lt(Term::Var(ts), Term::Var(tb)),
        match rel {
            SubRel::Lhs => Formula::both(
                Formula::Eq(Term::Var(t), Term::Var(tb)),
                conversion_spec(rel, n, Some(nb), Term::Var(ns), Term::Var(tb), Term::Var(ts)),
            ),
            SubRel::Rhs => Formula::both(
                Formula::Eq(Term::Var(t), Term::Var(ts)),
                conversion_spec(rel, n, Some(ns), Term::Var(nb), Term::Var(tb), Term::Var(ts)),
            ),
        },
    )
}

/// The law of a parallel merge of `(nl, tl)` and `(nr, tr)` into `(n, t)`:
/// equal windows are kept and the events added; the merged window is one of
/// the two; and unequal windows are brought together as [`merge_case_spec`]
/// says, whichever side has the shorter one.
pub open spec fn merge_law_spec(
    rel: SubRel,
    nl: usize,
    tl: usize,
    nr: usize,
    tr: usize,
    n: usize,
    t: usize,
) -> Formula {
    Formula::both(
        Formula::implies(
            Formula::Eq(Term::Var(tl), Term::Var(tr)),
            Formula::both(
                Formula::Eq(Term::Var(t), Term::Var(tl)),
                Formula::Eq(Term::Var(n), Term::plus(Term::Var(nl), Term::Var(nr))),
            ),
        ),
        Formula::both(
            Formula::either(
                Formula::Eq(Term::Var(t), Term::Var(tl)),
                Formula::Eq(Term::Var(t), Term::Var(tr)),
            ),
            Formula::both(
                merge_case_spec(rel, nl, tl, nr, tr, n, t),
                merge_case_spec(rel, nr, tr, nl, tl, n, t),
            ),
        ),
    )
}

/// The law of the period that spans two phases: its window is the sum of
/// their windows and its events the sum of their events.
pub open spec fn cross_law_spec(
    nl: usize,
    tl: usize,
    nr: usize,
    tr: usize,
    n: usize,
    t: usize,
) -> Formula {
    Formula::both(
        Formula::Eq(Term::Var(t), Term::plus(Term::Var(tl), Term::Var(tr))),
        Formula::Eq(Term::Var(n), Term::plus(Term::Var(nl), Term::Var(nr))),
    )
}

/// `t` equals one of the literals `ws`.
pub open spec fn any_literal_spec(t: usize, ws: Seq<u64>) -> Formula
    decreases ws.len(),
{
    if ws.len() == 0 {
        Formula::Bool(false)
    } else {
        Formula::either(
            any_literal_spec(t, ws.drop_last()),
            Formula::Eq(Term::Var(t), Term::Const(ws.last())),
        )
    }
}

/// `t` equals one of the variables `vs`.
pub open spec fn any_variable_spec(t: usize, vs: Seq<usize>) -> Formula
    decreases vs.len(),
{
    if vs.len() == 0 {
        Formula::Bool(false)
    } else {
        Formula::either(
            any_variable_spec(t, vs.drop_last()),
            Formula::Eq(Term::Var(t), Term::Var(vs.last())),
        )
    }
}

/// The lesser of two windows.
pub open spec fn least(a: u64, b: u64) -> u64 {
    if a <= b {
        a
    } else {
        b
    }
}

/// The greater of two windows.
pub open spec fn greatest(a: u64, b: u64) -> u64 {
    if a <= b {
        b
    } else {
        a
    }
}

/// What is asserted of a rate `l` from the left of a judgment and a rate `r`
/// from its right: both have one window; that window lies between the least
/// and the greatest literal window of either; the left events do not exceed
/// the right events; and the window is one of the windows that either side
/// has listed.
pub open spec fn compare_law_spec(l: SymRateView, r: SymRateView) -> Formula {
    Formula::both(
        Formula::Eq(Term::Var(l.window), Term::Var(r.window)),
        Formula::both(
            Formula::both(
                Formula::Le(Term::Const(least(l.min_window, r.min_window)), Term::Var(l.window)),
                Formula::Le(Term::Var(l.window), Term::Const(greatest(l.max_window, r.max_window))),
            ),
            Formula::both(
                Formula::Le(Term::Var(l.events), Term::Var(r.events)),
                Formula::either(
                    any_literal_spec(l.window, l.concrete + r.concrete),
                    any_variable_spec(l.window, l.symbolic + r.symbolic),
                ),
            ),
        ),
    )
}

/// The rate over the variables `n` and `t` that comes of putting `l` and `r`
/// together: it has seen every literal window that either has seen, and its
/// window may be any window that either's may be. A crossing adds its own
/// window to those.
pub open spec fn joined_spec(how: Pairing, l: SymRateView, r: SymRateView, n: usize, t: usize) -> SymRateView {
    SymRateView {
        events: n,
        window: t,
        max_window: greatest(l.max_window, r.max_window),
        min_window: least(l.min_window, r.min_window),
        concrete: l.concrete + r.concrete,
        symbolic: if how is Cross {
            (l.symbolic + r.symbolic).push(t)
        } else {
            l.symbolic + r.symbolic
        },
    }
}

/// Puts `l` and `r` together in `st`. A merge and a crossing declare a new
/// rate, assert its law and hand it out; a comparison only asserts.
pub open spec fn pair_spec(how: Pairing, l: SymRateView, r: SymRateView, st: Constraints) -> (
    Seq<SymRateView>,
    Constraints,
) {
    let n = st.vars as usize;
    let t = (st.vars + 1) as usize;
    match how {
        Pairing::Merge(rel) => (
            seq![joined_spec(how, l, r, n, t)],
            st.declare_rate().assert_also(
                merge_law_spec(rel, l.events, l.window, r.events, r.window, n, t),
            ),
        ),
        Pairing::Cross => (
            seq![joined_spec(how, l, r, n, t)],
            st.declare_rate().assert_also(
                cross_law_spec(l.events, l.window, r.events, r.window, n, t),
            ),
        ),
        Pairing::Compare => (Seq::empty(), st.assert_also(compare_law_spec(l, r))),
    }
}

/// Puts `l` together with each of `rs` in turn.
pub open spec fn row_spec(how: Pairing, l: SymRateView, rs: Seq<SymRateView>, st: Constraints) -> (
    Seq<SymRateView>,
    Constraints,
)
    decreases rs.len(),
{
    if rs.len() == 0 {
        (Seq::empty(), st)
    } else {
        let (done, st1) = row_spec(how, l, rs.drop_last(), st);
        let (more, st2) = pair_spec(how, l, rs.last(), st1);
        (done + more, st2)
    }
}

/// Puts each of `ls` together with each of `rs`, the first of `ls` with all
/// of `rs` before the second of `ls` with any.
pub open spec fn grid_spec(
    how: Pairing,
    ls: Seq<SymRateView>,
    rs: Seq<SymRateView>,
    st: Constraints,
) -> (Seq<SymRateView>, Constraints)
    decreases ls.len(),
{
    if ls.len() == 0 {
        (Seq::empty(), st)
    } else {
        let (done, st1) = grid_spec(how, ls.drop_last(), rs, st);
        let (more, st2) = row_spec(how, ls.last(), rs, st1);
        (done + more, st2)
    }
}

/// Whether a problem with `vars` variables has declared every variable that
/// `s` names.
pub open spec fn declared(s: SymRateView, vars: nat) -> bool {
    &&& s.events < vars
    &&& s.window < vars
    &&& forall|i: int| 0 <= i < s.symbolic.len() ==> #[trigger] s.symbolic[i] < vars
}

/// The rate over the variables `n` and `t` that stands for the literal `r`.
pub open spec fn leaf_spec(r: Rate, n: usize, t: usize) -> SymRateView {
    SymRateView {
        events: n,
        window: t,
        max_window: r.window_spec() as u64,
        min_window: r.window_spec() as u64,
        concrete: seq![r.window_spec() as u64],
        symbolic: Seq::empty(),
    }
}

/// The symbolic rates of `term` on the side `rel`, and `st` with their
/// variables and laws added.
///
/// A literal rate gets a new rate with its conversion law. A `Sym` leaf
/// stands for itself, provided `st` has declared its variables. A `Par` has
/// one merged rate for each pair of a rate of its first operand and a rate
/// of its second. An `LConcat` has the rates of its first operand, then one
/// crossing for each such pair, then the rates of its second operand. An
/// `Or` or an `And` has none: it is an error to meet one.
pub open spec fn symbolize_spec(term: &BARate, rel: SubRel, st: Constraints) -> Result<
    (Seq<SymRateView>, Constraints),
    Fatal,
>
    decreases term,
{
    match term {
        BARate::Raw(r) => {
            let n = st.vars as usize;
            let t = (st.vars + 1) as usize;
            Ok(
                (
                    seq![leaf_spec(*r, n, t)],
                    st.declare_rate().assert_also(
                        raw_law_spec(rel, r.events_spec() as u64, r.window_spec() as u64, n, t),
                    ),
                ),
            )
        },
        BARate::Sym(s) => if declared(s@, st.vars) {
            Ok((seq![s@], st))
        } else {
            Err(Fatal::UndeclaredVariable)
        },
        BARate::Par(l, r) => match symbolize_spec(l, rel, st) {
            Err(e) => Err(e),
            Ok((ls, st1)) => match symbolize_spec(r, rel, st1) {
                Err(e) => Err(e),
                Ok((rs, st2)) => Ok(grid_spec(Pairing::Merge(rel), ls, rs, st2)),
            },
        },
        BARate::LConcat(l, r) => match symbolize_spec(l, rel, st) {
            Err(e) => Err(e),
            Ok((ls, st1)) => match symbolize_spec(r, rel, st1) {
                Err(e) => Err(e),
                Ok((rs, st2)) => {
                    let (xs, st3) = grid_spec(Pairing::Cross, ls, rs, st2);
                    Ok((ls + xs + rs, st3))
                },
            },
        },
        BARate::Or(_, _) | BARate::And(_, _) => Err(Fatal::LogicalOperand),
    }
}

/// The constraint problem of the judgment `x <: y` between two structural
/// terms: the rates of `x` as the left side, then the rates of `y` as the
/// right side, then the comparison of every rate of `x` with every rate of
/// `y`.
pub open spec fn discharge_spec(x: &BARate, y: &BARate) -> Result<Constraints, Fatal> {
    match symbolize_spec(x, SubRel::Lhs, Constraints::empty()) {
        Err(e) => Err(e),
        Ok((ls, st1)) => match symbolize_spec(y, SubRel::Rhs, st1) {
            Err(e) => Err(e),
            Ok((rs, st2)) => Ok(grid_spec(Pairing::Compare, ls, rs, st2).1),
        },
    }
}


/// The mathematical content of each of `rates`.
pub open spec fn views(rates: Seq<SymRate>) -> Seq<SymRateView> {
    rates.map_values(|r: SymRate| r@)
}

/// The elements of `a` followed by those of `b`.
fn joined<T: Copy>(a: &Vec<T>, b: &Vec<T>) -> (all: Vec<T>)
    ensures
        all@ == a@ + b@,
{
    let mut all: Vec<T> = Vec::new();
    let mut i: usize = 0;
    while i < a.len()
        invariant
            i <= a.len(),
            all@ == a@.take(i as int),
        decreases a.len() - i,
    {
        all.push(a[i]);
        i += 1;
        assert(a@.take(i as int).drop_last() == a@.take(i - 1));
    }
    assert(a@.take(a.len() as int) == a@);
    let mut j: usize = 0;
    while j < b.len()
        invariant
            j <= b.len(),
            all@ == a@ + b@.take(j as int),
        decreases b.len() - j,
    {
        all.push(b[j]);
        j += 1;
        assert(a@ + b@.take(j as int) == (a@ + b@.take(j - 1)).push(b@[j - 1]));
    }
    assert(b@.take(b.len() as int) == b@);
    all
}

impl SymRate {
    /// A copy of the rate.
    pub fn duplicate(&self) -> (s: SymRate)
        ensures
            s@ == self@,
    {
        let none_u64: Vec<u64> = Vec::new();
        let none_usize: Vec<usize> = Vec::new();
        let concrete = joined(&self.seen_concrete_windows, &none_u64);
        let symbolic = joined(&self.seen_symbolic_windows, &none_usize);
        assert(self.seen_concrete_windows@ + none_u64@ == self.seen_concrete_windows@);
        assert(self.seen_symbolic_windows@ + none_usize@ == self.seen_symbolic_windows@);
        SymRate {
            events: self.events,
            window: self.window,
            max_window: self.max_window,
            min_window: self.min_window,
            seen_concrete_windows: concrete,
            seen_symbolic_windows: symbolic,
        }
    }
}

fn scaled(rel: SubRel, rest: Option<usize>, base: Term, factor: Term) -> (t: Term)
    ensures
        t == scaled_spec(rel, rest, base, factor),
{
    let share = match rel {
        SubRel::Lhs => Term::times(base, factor),
        SubRel::Rhs => Term::over(base, factor),
    };
    match rest {
        Some(r) => Term::plus(Term::Var(r), share),
        None => share,
    }
}

fn conversion(rel: SubRel, n: usize, rest: Option<usize>, base: &Term, a: &Term, b: &Term) -> (f:
    Formula)
    ensures
        f == conversion_spec(rel, n, rest, *base, *a, *b),
{
    let exact = scaled(rel, rest, base.duplicate(), Term::over(a.duplicate(), b.duplicate()));
    let rounded = scaled(
        rel,
        rest,
        base.duplicate(),
        Term::plus(Term::over(a.duplicate(), b.duplicate()), Term::Const(1)),
    );
    Formula::both(
        Formula::implies(
            Formula::Eq(Term::modulo(a.duplicate(), b.duplicate()), Term::Const(0)),
            Formula::Eq(Term::Var(n), exact),
        ),
        Formula::implies(
            Formula::negation(
                Formula::Eq(Term::modulo(a.duplicate(), b.duplicate()), Term::Const(0)),
            ),
            Formula::Eq(Term::Var(n), rounded),
        ),
    )
}

fn raw_law(rel: SubRel, e: u64, w: u64, n: usize, t: usize) -> (f: Formula)
    ensures
        f == raw_law_spec(rel, e, w, n, t),
{
    match rel {
        SubRel::Lhs => Formula::both(
            Formula::implies(
                Formula::Le(Term::Var(t), Term::Const(w)),
                Formula::Eq(Term::Var(n), Term::Const(e)),
            ),
            Formula::implies(
                Formula::Le(Term::Const(w), Term::Var(t)),
                conversion(rel, n, None, &Term::Const(e), &Term::Var(t), &Term::Const(w)),
            ),
        ),
        SubRel::Rhs => Formula::both(
            Formula::implies(
                Formula::Le(Term::Const(w), Term::Var(t)),
                Formula::Eq(Term::Var(n), Term::Const(e)),
            ),
            Formula::implies(
                Formula::Le(Term::Var(t), Term::Const(w)),
                conversion(rel, n, None, &Term::Const(e), &Term::Const(w), &Term::Var(t)),
            ),
        ),
    }
}

fn merge_case(rel: SubRel, ns: usize, ts: usize, nb: usize, tb: usize, n: usize, t: usize) -> (f:
    Formula)
    ensures
        f == merge_case_spec(rel, ns, ts, nb, tb, n, t),
{
    Formula::implies(
        Formula::Lt(Term::Var(ts), Term::Var(tb)),
        match rel {
            SubRel::Lhs => Formula::both(
                Formula::Eq(Term::Var(t), Term::Var(tb)),
                conversion(rel, n, Some(nb), &Term::Var(ns), &Term::Var(tb), &Term::Var(ts)),
            ),
            SubRel::Rhs => Formula::both(
                Formula::Eq(Term::Var(t), Term::Var(ts)),
                conversion(rel, n, Some(ns), &Term::Var(nb), &Term::Var(tb), &Term::Var(ts)),
            ),
        },
    )
}

fn merge_law(rel: SubRel, nl: usize, tl: usize, nr: usize, tr: usize, n: usize, t: usize) -> (f:
    Formula)
    ensures
        f == merge_law_spec(rel, nl, tl, nr, tr, n, t),
{
    Formula::both(
        Formula::implies(
            Formula::Eq(Term::Var(tl), Term::Var(tr)),
            Formula::both(
                Formula::Eq(Term::Var(t), Term::Var(tl)),
                Formula::Eq(Term::Var(n), Term::plus(Term::Var(nl), Term::Var(nr))),
            ),
        ),
        Formula::both(
            Formula::either(
                Formula::Eq(Term::Var(t), Term::Var(tl)),
                Formula::Eq(Term::Var(t), Term::Var(tr)),
            ),
            Formula::both(
                merge_case(rel, nl, tl, nr, tr, n, t),
                merge_case(rel, nr, tr, nl, tl, n, t),
            ),
        ),
    )
}

fn cross_law(nl: usize, tl: usize, nr: usize, tr: usize, n: usize, t: usize) -> (f: Formula)
    ensures
        f == cross_law_spec(nl, tl, nr, tr, n, t),
{
    Formula::both(
        Formula::Eq(Term::Var(t), Term::plus(Term::Var(tl), Term::Var(tr))),
        Formula::Eq(Term::Var(n), Term::plus(Term::Var(nl), Term::Var(nr))),
    )
}

fn any_literal(t: usize, ws: &Vec<u64>) -> (f: Formula)
    ensures
        f == any_literal_spec(t, ws@),
{
    let mut f = Formula::Bool(false);
    let mut i: usize = 0;
    while i < ws.len()
        invariant
            i <= ws.len(),
            f == any_literal_spec(t, ws@.take(i as int)),
        decreases ws.len() - i,
    {
        f = Formula::either(f, Formula::Eq(Term::Var(t), Term::Const(ws[i])));
        i += 1;
        assert(ws@.take(i as int).drop_last() == ws@.take(i - 1));
    }
    assert(ws@.take(ws.len() as int) == ws@);
    f
}

fn any_variable(t: usize, vs: &Vec<usize>) -> (f: Formula)
    ensures
        f == any_variable_spec(t, vs@),
{
    let mut f = Formula::Bool(false);
    let mut i: usize = 0;
    while i < vs.len()
        invariant
            i <= vs.len(),
            f == any_variable_spec(t, vs@.take(i as int)),
        decreases vs.len() - i,
    {
        f = Formula::either(f, Formula::Eq(Term::Var(t), Term::Var(vs[i])));
        i += 1;
        assert(vs@.take(i as int).drop_last() == vs@.take(i - 1));
    }
    assert(vs@.take(vs.len() as int) == vs@);
    f
}

fn compare_law(l: &SymRate, r: &SymRate) -> (f: Formula)
    ensures
        f == compare_law_spec(l@, r@),
{
    let low = if l.min_window <= r.min_window {
        l.min_window
    } else {
        r.min_window
    };
    let high = if l.max_window <= r.max_window {
        r.max_window
    } else {
        l.max_window
    };
    let literals = joined(&l.seen_concrete_windows, &r.seen_concrete_windows);
    let variables = joined(&l.seen_symbolic_windows, &r.seen_symbolic_windows);
    Formula::both(
        Formula::Eq(Term::Var(l.window), Term::Var(r.window)),
        Formula::both(
            Formula::both(
                Formula::Le(Term::Const(low), Term::Var(l.window)),
                Formula::Le(Term::Var(l.window), Term::Const(high)),
            ),
            Formula::both(
                Formula::Le(Term::Var(l.events), Term::Var(r.events)),
                Formula::either(
                    any_literal(l.window, &literals),
                    any_variable(l.window, &variables),
                ),
            ),
        ),
    )
}

/// The rate over the last two variables of a problem with `top` variables
/// that comes of putting `l` and `r` together.
fn joined_rate(how: Pairing, l: &SymRate, r: &SymRate, top: usize) -> (s: SymRate)
    requires
        top >= 2,
    ensures
        s@ == joined_spec(how, l@, r@, (top - 2) as usize, (top - 1) as usize),
{
    let low = if l.min_window <= r.min_window {
        l.min_window
    } else {
        r.min_window
    };
    let high = if l.max_window <= r.max_window {
        r.max_window
    } else {
        l.max_window
    };
    let mut symbolic = joined(&l.seen_symbolic_windows, &r.seen_symbolic_windows);
    if let Pairing::Cross = how {
        symbolic.push(top - 1);
    }
    SymRate {
        events: top - 2,
        window: top - 1,
        max_window: high,
        min_window: low,
        seen_concrete_windows: joined(&l.seen_concrete_windows, &r.seen_concrete_windows),
        seen_symbolic_windows: symbolic,
    }
}

/// Puts `l` and `r` together in `problem`, and adds what comes of it to `out`.
fn pair(how: Pairing, l: &SymRate, r: &SymRate, out: &mut Vec<SymRate>, problem: Problem) -> (p:
    Problem)
    ensures
        views(final(out)@) == views(old(out)@) + pair_spec(how, l@, r@, problem@).0,
        p@ == pair_spec(how, l@, r@, problem@).1,
{
    match how {
        Pairing::Merge(rel) => {
            let declared = problem.declare_rate();
            let top = declared.vars();
            let law = merge_law(rel, l.events, l.window, r.events, r.window, top - 2, top - 1);
            let s = joined_rate(how, l, r, top);
            out.push(s);
            assert(views(out@) == views(old(out)@) + seq![s@]);
            declared.assert_also(law)
        },
        Pairing::Cross => {
            let declared = problem.declare_rate();
            let top = declared.vars();
            let law = cross_law(l.events, l.window, r.events, r.window, top - 2, top - 1);
            let s = joined_rate(how, l, r, top);
            out.push(s);
            assert(views(out@) == views(old(out)@) + seq![s@]);
            declared.assert_also(law)
        },
        Pairing::Compare => {
            assert(views(out@) == views(out@) + Seq::<SymRateView>::empty());
            problem.assert_also(compare_law(l, r))
        },
    }
}

/// Puts `l` together with each of `rs` in turn.
fn row(how: Pairing, l: &SymRate, rs: &Vec<SymRate>, out: &mut Vec<SymRate>, problem: Problem) -> (p:
    Problem)
    ensures
        views(final(out)@) == views(old(out)@) + row_spec(how, l@, views(rs@), problem@).0,
        p@ == row_spec(how, l@, views(rs@), problem@).1,
{
    let ghost start = problem@;
    let mut p = problem;
    let mut j: usize = 0;
    assert(views(out@) == views(out@) + Seq::<SymRateView>::empty());
    while j < rs.len()
        invariant
            j <= rs.len(),
            views(out@) == views(old(out)@) + row_spec(how, l@, views(rs@).take(j as int), start).0,
            p@ == row_spec(how, l@, views(rs@).take(j as int), start).1,
        decreases rs.len() - j,
    {
        let ghost before = views(out@);
        let ghost done = row_spec(how, l@, views(rs@).take(j as int), start);
        p = pair(how, l, &rs[j], out, p);
        j += 1;
        proof {
            let now = views(rs@).take(j as int);
            assert(now.drop_last() == views(rs@).take(j - 1));
            assert(now.last() == rs@[j - 1]@);
            assert(views(out@) == views(old(out)@) + (done.0 + pair_spec(
                how,
                l@,
                rs@[j - 1]@,
                done.1,
            ).0));
        }
    }
    assert(views(rs@).take(rs.len() as int) == views(rs@));
    p
}

/// Puts each of `ls` together with each of `rs`.
fn grid(how: Pairing, ls: &Vec<SymRate>, rs: &Vec<SymRate>, out: &mut Vec<SymRate>, problem: Problem) -> (p:
    Problem)
    ensures
        views(final(out)@) == views(old(out)@) + grid_spec(how, views(ls@), views(rs@), problem@).0,
        p@ == grid_spec(how, views(ls@), views(rs@), problem@).1,
{
    let ghost start = problem@;
    let mut p = problem;
    let mut i: usize = 0;
    assert(views(out@) == views(out@) + Seq::<SymRateView>::empty());
    while i < ls.len()
        invariant
            i <= ls.len(),
            views(out@) == views(old(out)@) + grid_spec(
                how,
                views(ls@).take(i as int),
                views(rs@),
                start,
            ).0,
            p@ == grid_spec(how, views(ls@).take(i as int), views(rs@), start).1,
        decreases ls.len() - i,
    {
        let ghost done = grid_spec(how, views(ls@).take(i as int), views(rs@), start);
        p = row(how, &ls[i], rs, out, p);
        i += 1;
        proof {
            let now = views(ls@).take(i as int);
            assert(now.drop_last() == views(ls@).take(i - 1));
            assert(now.last() == ls@[i - 1]@);
            assert(views(out@) == views(old(out)@) + (done.0 + row_spec(
                how,
                ls@[i - 1]@,
                views(rs@),
                done.1,
            ).0));
        }
    }
    assert(views(ls@).take(ls.len() as int) == views(ls@));
    p
}


fn is_declared(s: &SymRate, vars: usize) -> (b: bool)
    ensures
        b == declared(s@, vars as nat),
{
    if s.events >= vars || s.window >= vars {
        return false;
    }
    let mut i: usize = 0;
    while i < s.seen_symbolic_windows.len()
        invariant
            i <= s.seen_symbolic_windows.len(),
            forall|k: int| 0 <= k < i ==> #[trigger] s@.symbolic[k] < vars,
        decreases s.seen_symbolic_windows.len() - i,
    {
        if s.seen_symbolic_windows[i] >= vars {
            assert(!(s@.symbolic[i as int] < vars));
            return false;
        }
        i += 1;
    }
    true
}

/// The rate over the last two variables of a problem with `top` variables
/// that stands for the literal `r`.
fn leaf(r: &Rate, top: usize) -> (s: SymRate)
    requires
        top >= 2,
    ensures
        s@ == leaf_spec(*r, (top - 2) as usize, (top - 1) as usize),
{
    let mut concrete: Vec<u64> = Vec::new();
    concrete.push(r.window());
    SymRate {
        events: top - 2,
        window: top - 1,
        max_window: r.window(),
        min_window: r.window(),
        seen_concrete_windows: concrete,
        seen_symbolic_windows: Vec::new(),
    }
}

/// Gives `term`, which stands on the side `rel` of a judgment, its symbolic
/// rates, and adds their variables and laws to `problem`. Fails on a term
/// that holds an `Or` or an `And`, and on a `Sym` leaf whose variables the
/// problem has not declared by the time it is met.
pub fn symbolize(term: &BARate, rel: SubRel, problem: Problem) -> (out: Result<
    (Vec<SymRate>, Problem),
    Fatal,
>)
    ensures
        match symbolize_spec(term, rel, problem@) {
            Ok((rates, after)) => out matches Ok((v, p)) && views(v@) == rates && p@ == after,
            Err(e) => out matches Err(f) && f == e,
        },
    decreases term,
{
    match term {
        BARate::Raw(r) => {
            let declared = problem.declare_rate();
            let top = declared.vars();
            let law = raw_law(rel, r.events(), r.window(), top - 2, top - 1);
            let mut rates: Vec<SymRate> = Vec::new();
            let s = leaf(r, top);
            rates.push(s);
            assert(views(rates@) == seq![s@]);
            Ok((rates, declared.assert_also(law)))
        },
        BARate::Sym(s) => {
            if is_declared(s, problem.vars()) {
                let mut rates: Vec<SymRate> = Vec::new();
                let copy = s.duplicate();
                rates.push(copy);
                assert(views(rates@) == seq![s@]);
                Ok((rates, problem))
            } else {
                Err(Fatal::UndeclaredVariable)
            }
        },
        BARate::Par(l, r) => {
            let (ls, with_first) = match symbolize(l, rel, problem) {
                Ok(found) => found,
                Err(e) => {
                    return Err(e);
                },
            };
            let (rs, with_both) = match symbolize(r, rel, with_first) {
                Ok(found) => found,
                Err(e) => {
                    return Err(e);
                },
            };
            let mut rates: Vec<SymRate> = Vec::new();
            let finished = grid(Pairing::Merge(rel), &ls, &rs, &mut rates, with_both);
            assert(views(rates@) == grid_spec(Pairing::Merge(rel), views(ls@), views(rs@), with_both@).0);
            Ok((rates, finished))
        },
        BARate::LConcat(l, r) => {
            let (mut ls, with_first) = match symbolize(l, rel, problem) {
                Ok(found) => found,
                Err(e) => {
                    return Err(e);
                },
            };
            let (mut rs, with_both) = match symbolize(r, rel, with_first) {
                Ok(found) => found,
                Err(e) => {
                    return Err(e);
                },
            };
            let mut xs: Vec<SymRate> = Vec::new();
            let finished = grid(Pairing::Cross, &ls, &rs, &mut xs, with_both);
            let ghost lv = views(ls@);
            let ghost xv = views(xs@);
            let ghost rv = views(rs@);
            assert(xv == grid_spec(Pairing::Cross, lv, rv, with_both@).0);
            ls.append(&mut xs);
            ls.append(&mut rs);
            assert(views(ls@) == lv + xv + rv);
            Ok((ls, finished))
        },
        BARate::Or(_, _) | BARate::And(_, _) => Err(Fatal::LogicalOperand),
    }
}

/// Writes the constraint problem of the judgment `bar_l <: bar_r` between
/// two structural terms. A solver that finds the problem satisfiable has
/// found window sizes under which the judgment holds. Fails where
/// [`symbolize`] fails on `bar_l` or, that done, on `bar_r`.
pub fn discharge_subtyping(bar_l: &BARate, bar_r: &BARate) -> (out: Result<Problem, Fatal>)
    ensures
        match discharge_spec(bar_l, bar_r) {
            Ok(c) => out matches Ok(p) && p@ == c,
            Err(e) => out matches Err(f) && f == e,
        },
{
    let (ls, with_first) = match symbolize(bar_l, SubRel::Lhs, Problem::new()) {
        Ok(found) => found,
        Err(e) => {
            return Err(e);
        },
    };
    let (rs, with_both) = match symbolize(bar_r, SubRel::Rhs, with_first) {
        Ok(found) => found,
        Err(e) => {
            return Err(e);
        },
    };
    let mut none: Vec<SymRate> = Vec::new();
    let finished = grid(Pairing::Compare, &ls, &rs, &mut none, with_both);
    Ok(finished)
}

/// A term without logical combinators and without `Sym` leaves has an
/// encoding, whatever the problem it is added to.
pub proof fn lemma_symbolize_total(term: &BARate, rel: SubRel, st: Constraints)
    requires
        structural(term),
        sym_free(term),
    ensures
        symbolize_spec(term, rel, st) is Ok,
    decreases term,
{
    match term {
        BARate::Par(l, r) | BARate::LConcat(l, r) => {
            lemma_symbolize_total(l, rel, st);
            lemma_symbolize_total(r, rel, symbolize_spec(l, rel, st)->Ok_0.1);
        },
        _ => {},
    }
}

/// A term that holds a logical combinator has no encoding.
pub proof fn lemma_symbolize_rejects_logic(term: &BARate, rel: SubRel, st: Constraints)
    requires
        !structural(term),
    ensures
        symbolize_spec(term, rel, st) is Err,
    decreases term,
{
    match term {
        BARate::Par(l, r) | BARate::LConcat(l, r) => {
            if !structural(l) {
                lemma_symbolize_rejects_logic(l, rel, st);
            } else if let Ok((ls, st1)) = symbolize_spec(l, rel, st) {
                lemma_symbolize_rejects_logic(r, rel, st1);
            }
        },
        _ => {},
    }
}

/// A judgment between two terms without logical combinators and without
/// `Sym` leaves has a constraint problem.
pub proof fn lemma_discharge_total(x: &BARate, y: &BARate)
    requires
        structural(x),
        structural(y),
        sym_free(x),
        sym_free(y),
    ensures
        discharge_spec(x, y) is Ok,
{
    lemma_symbolize_total(x, SubRel::Lhs, Constraints::empty());
    lemma_symbolize_total(
        y,
        SubRel::Rhs,
        symbolize_spec(x, SubRel::Lhs, Constraints::empty())->Ok_0.1,
    );
}

proof fn lemma_conversion_closed(
    rel: SubRel,
    n: usize,
    rest: Option<usize>,
    base: Term,
    a: Term,
    b: Term,
    vars: nat,
)
    requires
        n < vars,
        rest matches Some(r) ==> r < vars,
        base.closed(vars),
        a.closed(vars),
        b.closed(vars),
    ensures
        conversion_spec(rel, n, rest, base, a, b).closed(vars),
{
    reveal_with_fuel(Formula::closed, 4);
    reveal_with_fuel(Term::closed, 5);
}

proof fn lemma_raw_law_closed(rel: SubRel, e: u64, w: u64, n: usize, t: usize, vars: nat)
    requires
        n < vars,
        t < vars,
    ensures
        raw_law_spec(rel, e, w, n, t).closed(vars),
{
    lemma_conversion_closed(rel, n, None, Term::Const(e), Term::Var(t), Term::Const(w), vars);
    lemma_conversion_closed(rel, n, None, Term::Const(e), Term::Const(w), Term::Var(t), vars);
    reveal_with_fuel(Formula::closed, 3);
}

proof fn lemma_merge_case_closed(
    rel: SubRel,
    ns: usize,
    ts: usize,
    nb: usize,
    tb: usize,
    n: usize,
    t: usize,
    vars: nat,
)
    requires
        ns < vars,
        ts < vars,
        nb < vars,
        tb < vars,
        n < vars,
        t < vars,
    ensures
        merge_case_spec(rel, ns, ts, nb, tb, n, t).closed(vars),
{
    lemma_conversion_closed(rel, n, Some(nb), Term::Var(ns), Term::Var(tb), Term::Var(ts), vars);
    lemma_conversion_closed(rel, n, Some(ns), Term::Var(nb), Term::Var(tb), Term::Var(ts), vars);
    reveal_with_fuel(Formula::closed, 3);
}

proof fn lemma_merge_law_closed(
    rel: SubRel,
    nl: usize,
    tl: usize,
    nr: usize,
    tr: usize,
    n: usize,
    t: usize,
    vars: nat,
)
    requires
        nl < vars,
        tl < vars,
        nr < vars,
        tr < vars,
        n < vars,
        t < vars,
    ensures
        merge_law_spec(rel, nl, tl, nr, tr, n, t).closed(vars),
        cross_law_spec(nl, tl, nr, tr, n, t).closed(vars),
{
    lemma_merge_case_closed(rel, nl, tl, nr, tr, n, t, vars);
    lemma_merge_case_closed(rel, nr, tr, nl, tl, n, t, vars);
    reveal_with_fuel(Formula::closed, 4);
    reveal_with_fuel(Term::closed, 2);
}

proof fn lemma_any_literal_closed(t: usize, ws: Seq<u64>, vars: nat)
    requires
        t < vars,
    ensures
        any_literal_spec(t, ws).closed(vars),
    decreases ws.len(),
{
    reveal_with_fuel(Formula::closed, 2);
    if ws.len() > 0 {
        lemma_any_literal_closed(t, ws.drop_last(), vars);
    }
}

proof fn lemma_any_variable_closed(t: usize, vs: Seq<usize>, vars: nat)
    requires
        t < vars,
        forall|i: int| 0 <= i < vs.len() ==> #[trigger] vs[i] < vars,
    ensures
        any_variable_spec(t, vs).closed(vars),
    decreases vs.len(),
{
    reveal_with_fuel(Formula::closed, 2);
    if vs.len() > 0 {
        assert(vs[vs.len() - 1] < vars);
        lemma_any_variable_closed(t, vs.drop_last(), vars);
    }
}

proof fn lemma_compare_law_closed(l: SymRateView, r: SymRateView, vars: nat)
    requires
        declared(l, vars),
        declared(r, vars),
    ensures
        compare_law_spec(l, r).closed(vars),
{
    lemma_any_literal_closed(l.window, l.concrete + r.concrete, vars);
    lemma_any_variable_closed(l.window, l.symbolic + r.symbolic, vars);
    reveal_with_fuel(Formula::closed, 5);
}

/// Whether every one of `rates` names declared variables only.
pub open spec fn all_declared(rates: Seq<SymRateView>, vars: nat) -> bool {
    forall|i: int| 0 <= i < rates.len() ==> declared(#[trigger] rates[i], vars)
}

proof fn lemma_declared_more(s: SymRateView, n: nat, m: nat)
    requires
        declared(s, n),
        n <= m,
    ensures
        declared(s, m),
{
}

proof fn lemma_all_declared_more(rates: Seq<SymRateView>, n: nat, m: nat)
    requires
        all_declared(rates, n),
        n <= m,
    ensures
        all_declared(rates, m),
{
    assert forall|i: int| 0 <= i < rates.len() implies declared(#[trigger] rates[i], m) by {
        lemma_declared_more(rates[i], n, m);
    }
}

proof fn lemma_pair_closed(how: Pairing, l: SymRateView, r: SymRateView, st: Constraints)
    requires
        st.closed(),
        declared(l, st.vars),
        declared(r, st.vars),
    ensures
        pair_spec(how, l, r, st).1.closed(),
        st.vars <= pair_spec(how, l, r, st).1.vars,
        all_declared(pair_spec(how, l, r, st).0, pair_spec(how, l, r, st).1.vars),
{
    let n = st.vars as usize;
    let t = (st.vars + 1) as usize;
    let more = st.declare_rate();
    st.lemma_declare_rate_closed();
    match how {
        Pairing::Merge(rel) => {
            lemma_merge_law_closed(rel, l.events, l.window, r.events, r.window, n, t, more.vars);
            more.lemma_assert_also_closed(
                merge_law_spec(rel, l.events, l.window, r.events, r.window, n, t),
            );
            assert(declared(joined_spec(how, l, r, n, t), more.vars));
        },
        Pairing::Cross => {
            lemma_merge_law_closed(
                SubRel::Lhs,
                l.events,
                l.window,
                r.events,
                r.window,
                n,
                t,
                more.vars,
            );
            more.lemma_assert_also_closed(
                cross_law_spec(l.events, l.window, r.events, r.window, n, t),
            );
            assert(declared(joined_spec(how, l, r, n, t), more.vars));
        },
        Pairing::Compare => {
            lemma_compare_law_closed(l, r, st.vars);
            st.lemma_assert_also_closed(compare_law_spec(l, r));
        },
    }
}

proof fn lemma_row_closed(how: Pairing, l: SymRateView, rs: Seq<SymRateView>, st: Constraints)
    requires
        st.closed(),
        declared(l, st.vars),
        all_declared(rs, st.vars),
    ensures
        row_spec(how, l, rs, st).1.closed(),
        st.vars <= row_spec(how, l, rs, st).1.vars,
        all_declared(row_spec(how, l, rs, st).0, row_spec(how, l, rs, st).1.vars),
    decreases rs.len(),
{
    if rs.len() > 0 {
        let (done, st1) = row_spec(how, l, rs.drop_last(), st);
        assert(all_declared(rs.drop_last(), st.vars)) by {
            assert forall|i: int| 0 <= i < rs.drop_last().len() implies declared(
                #[trigger] rs.drop_last()[i],
                st.vars,
            ) by {
                assert(rs.drop_last()[i] == rs[i]);
            }
        }
        lemma_row_closed(how, l, rs.drop_last(), st);
        lemma_declared_more(l, st.vars, st1.vars);
        lemma_declared_more(rs.last(), st.vars, st1.vars);
        lemma_pair_closed(how, l, rs.last(), st1);
        let (more, st2) = pair_spec(how, l, rs.last(), st1);
        lemma_all_declared_more(done, st1.vars, st2.vars);
    }
}

proof fn lemma_grid_closed(
    how: Pairing,
    ls: Seq<SymRateView>,
    rs: Seq<SymRateView>,
    st: Constraints,
)
    requires
        st.closed(),
        all_declared(ls, st.vars),
        all_declared(rs, st.vars),
    ensures
        grid_spec(how, ls, rs, st).1.closed(),
        st.vars <= grid_spec(how, ls, rs, st).1.vars,
        all_declared(grid_spec(how, ls, rs, st).0, grid_spec(how, ls, rs, st).1.vars),
    decreases ls.len(),
{
    if ls.len() > 0 {
        let (done, st1) = grid_spec(how, ls.drop_last(), rs, st);
        assert(all_declared(ls.drop_last(), st.vars)) by {
            assert forall|i: int| 0 <= i < ls.drop_last().len() implies declared(
                #[trigger] ls.drop_last()[i],
                st.vars,
            ) by {
                assert(ls.drop_last()[i] == ls[i]);
            }
        }
        lemma_grid_closed(how, ls.drop_last(), rs, st);
        lemma_declared_more(ls.last(), st.vars, st1.vars);
        lemma_all_declared_more(rs, st.vars, st1.vars);
        lemma_row_closed(how, ls.last(), rs, st1);
        let (more, st2) = row_spec(how, ls.last(), rs, st1);
        lemma_all_declared_more(done, st1.vars, st2.vars);
    }
}

/// An encoding adds to a closed problem so that it stays closed, and the
/// rates it hands out name declared variables only.
pub proof fn lemma_symbolize_closed(term: &BARate, rel: SubRel, st: Constraints)
    requires
        st.closed(),
    ensures
        symbolize_spec(term, rel, st) matches Ok((rates, after)) ==> after.closed() && st.vars
            <= after.vars && all_declared(rates, after.vars),
    decreases term,
{
    match term {
        BARate::Raw(r) => {
            let n = st.vars as usize;
            let t = (st.vars + 1) as usize;
            let more = st.declare_rate();
            st.lemma_declare_rate_closed();
            let law = raw_law_spec(rel, r.events_spec() as u64, r.window_spec() as u64, n, t);
            lemma_raw_law_closed(
                rel,
                r.events_spec() as u64,
                r.window_spec() as u64,
                n,
                t,
                more.vars,
            );
            more.lemma_assert_also_closed(law);
            assert(declared(leaf_spec(*r, n, t), more.vars));
        },
        BARate::Sym(s) => {},
        BARate::Par(l, r) => {
            lemma_symbolize_closed(l, rel, st);
            if let Ok((ls, st1)) = symbolize_spec(l, rel, st) {
                lemma_symbolize_closed(r, rel, st1);
                if let Ok((rs, st2)) = symbolize_spec(r, rel, st1) {
                    lemma_all_declared_more(ls, st1.vars, st2.vars);
                    lemma_grid_closed(Pairing::Merge(rel), ls, rs, st2);
                }
            }
        },
        BARate::LConcat(l, r) => {
            lemma_symbolize_closed(l, rel, st);
            if let Ok((ls, st1)) = symbolize_spec(l, rel, st) {
                lemma_symbolize_closed(r, rel, st1);
                if let Ok((rs, st2)) = symbolize_spec(r, rel, st1) {
                    lemma_all_declared_more(ls, st1.vars, st2.vars);
                    lemma_grid_closed(Pairing::Cross, ls, rs, st2);
                    let (xs, st3) = grid_spec(Pairing::Cross, ls, rs, st2);
                    lemma_all_declared_more(ls, st2.vars, st3.vars);
                    lemma_all_declared_more(rs, st2.vars, st3.vars);
                }
            }
        },
        BARate::Or(_, _) | BARate::And(_, _) => {},
    }
}

/// The constraint problem of a judgment speaks of the variables it has
/// declared, and of no others.
pub proof fn lemma_discharge_closed(x: &BARate, y: &BARate)
    ensures
        discharge_spec(x, y) matches Ok(c) ==> c.closed(),
{
    let st = Constraints::empty();
    lemma_symbolize_closed(x, SubRel::Lhs, st);
    if let Ok((ls, st1)) = symbolize_spec(x, SubRel::Lhs, st) {
        lemma_symbolize_closed(y, SubRel::Rhs, st1);
        if let Ok((rs, st2)) = symbolize_spec(y, SubRel::Rhs, st1) {
            lemma_all_declared_more(ls, st1.vars, st2.vars);
            lemma_grid_closed(Pairing::Compare, ls, rs, st2);
        }
    }
}

/// What a rate of `e` events per `w` comes to in a window `t`: on the left
/// of a judgment the events are kept in a window no longer than `w` and
/// multiplied by `ceil(t / w)` in a longer one; on the right they are kept
/// in a window no shorter than `w` and divided by `ceil(w / t)` in a
/// shorter one.
pub open spec fn converted(rel: SubRel, e: int, w: int, t: int) -> int {
    match rel {
        SubRel::Lhs => if t <= w {
            e
        } else {
            e * ceil_div(t, w)
        },
        SubRel::Rhs => if t >= w {
            e
        } else {
            e / ceil_div(w, t)
        },
    }
}

/// `base` times `k` on the left of a judgment, `base` over `k` on the
/// right.
pub open spec fn apply_factor(rel: SubRel, base: int, k: int) -> int {
    match rel {
        SubRel::Lhs => base * k,
        SubRel::Rhs => base / k,
    }
}

proof fn lemma_scaled_value(rel: SubRel, rest: Option<usize>, base: Term, factor: Term, env: Seq<int>)
    ensures
        scaled_spec(rel, rest, base, factor).value(env) == (match rest {
            Some(r) => env[r as int],
            None => 0,
        }) + apply_factor(rel, base.value(env), factor.value(env)),
{
    reveal_with_fuel(Term::value, 3);
}

/// A conversion holds exactly where the variable `n` is what its doc
/// comment says.
pub proof fn lemma_conversion_meaning(
    rel: SubRel,
    n: usize,
    rest: Option<usize>,
    base: Term,
    a: Term,
    b: Term,
    env: Seq<int>,
)
    ensures
        conversion_spec(rel, n, rest, base, a, b).holds(env) <==> env[n as int] == (match rest {
            Some(r) => env[r as int],
            None => 0,
        }) + apply_factor(rel, base.value(env), ceil_div(a.value(env), b.value(env))),
{
    let whole = Term::over(a, b);
    let more = Term::plus(Term::over(a, b), Term::Const(1));
    let exact = scaled_spec(rel, rest, base, whole);
    let rounded = scaled_spec(rel, rest, base, more);
    let divides = Formula::Eq(Term::modulo(a, b), Term::Const(0));
    lemma_scaled_value(rel, rest, base, whole, env);
    lemma_scaled_value(rel, rest, base, more, env);
    assert(whole.value(env) == a.value(env) / b.value(env)) by {
        reveal_with_fuel(Term::value, 2);
    }
    assert(more.value(env) == a.value(env) / b.value(env) + 1) by {
        reveal_with_fuel(Term::value, 3);
    }
    assert(divides.holds(env) <==> a.value(env) % b.value(env) == 0) by {
        reveal_with_fuel(Term::value, 2);
    }
    assert(conversion_spec(rel, n, rest, base, a, b).holds(env) <==> (divides.holds(env)
        ==> env[n as int] == exact.value(env)) && (!divides.holds(env) ==> env[n as int]
        == rounded.value(env))) by {
        reveal_with_fuel(Formula::holds, 4);
        assert(Term::Var(n).value(env) == env[n as int]);
    }
}

/// The law of a literal rate holds, in a window of at least 1, exactly
/// where the events are what the rate comes to in that window.
pub proof fn lemma_raw_law_meaning(rel: SubRel, e: u64, w: u64, n: usize, t: usize, env: Seq<int>)
    requires
        w >= 1,
        env[t as int] >= 1,
    ensures
        raw_law_spec(rel, e, w, n, t).holds(env) <==> env[n as int] == converted(
            rel,
            e as int,
            w as int,
            env[t as int],
        ),
{
    let tv = env[t as int];
    let up = conversion_spec(rel, n, None, Term::Const(e), Term::Var(t), Term::Const(w));
    let down = conversion_spec(rel, n, None, Term::Const(e), Term::Const(w), Term::Var(t));
    lemma_conversion_meaning(rel, n, None, Term::Const(e), Term::Var(t), Term::Const(w), env);
    lemma_conversion_meaning(rel, n, None, Term::Const(e), Term::Const(w), Term::Var(t), env);
    assert(Term::Var(t).value(env) == tv && Term::Const(w).value(env) == w && Term::Const(
        e,
    ).value(env) == e && Term::Var(n).value(env) == env[n as int]);
    assert(raw_law_spec(rel, e, w, n, t).holds(env) <==> (match rel {
        SubRel::Lhs => (tv <= w ==> env[n as int] == e) && (w <= tv ==> up.holds(env)),
        SubRel::Rhs => (w <= tv ==> env[n as int] == e) && (tv <= w ==> down.holds(env)),
    })) by {
        reveal_with_fuel(Formula::holds, 3);
    }
    if tv == w {
        assert(ceil_div(tv, w as int) == 1 && ceil_div(w as int, tv) == 1) by (nonlinear_arith)
            requires
                tv == w,
                w >= 1,
        ;
        assert(e * 1 == e && e / 1 == e);
    }
}

/// "One of the literals" holds exactly where the variable equals one.
pub proof fn lemma_any_literal_meaning(t: usize, ws: Seq<u64>, env: Seq<int>)
    ensures
        any_literal_spec(t, ws).holds(env) <==> exists|i: int|
            0 <= i < ws.len() && env[t as int] == #[trigger] ws[i],
    decreases ws.len(),
{
    reveal_with_fuel(Formula::holds, 2);
    reveal_with_fuel(Term::value, 1);
    if ws.len() > 0 {
        let front = ws.drop_last();
        lemma_any_literal_meaning(t, front, env);
        if any_literal_spec(t, ws).holds(env) {
            if env[t as int] == ws.last() {
                assert(env[t as int] == ws[ws.len() - 1]);
            } else {
                let i = choose|i: int| 0 <= i < front.len() && env[t as int] == #[trigger] front[i];
                assert(env[t as int] == ws[i]);
            }
        }
        if exists|i: int| 0 <= i < ws.len() && env[t as int] == #[trigger] ws[i] {
            let i = choose|i: int| 0 <= i < ws.len() && env[t as int] == #[trigger] ws[i];
            if i < ws.len() - 1 {
                assert(env[t as int] == front[i]);
            }
        }
    }
}

/// "One of the variables" holds exactly where the variable equals one.
pub proof fn lemma_any_variable_meaning(t: usize, vs: Seq<usize>, env: Seq<int>)
    ensures
        any_variable_spec(t, vs).holds(env) <==> exists|i: int|
            0 <= i < vs.len() && env[t as int] == env[#[trigger] vs[i] as int],
    decreases vs.len(),
{
    reveal_with_fuel(Formula::holds, 2);
    reveal_with_fuel(Term::value, 1);
    if vs.len() > 0 {
        let front = vs.drop_last();
        lemma_any_variable_meaning(t, front, env);
        if any_variable_spec(t, vs).holds(env) {
            if env[t as int] == env[vs.last() as int] {
                assert(env[t as int] == env[vs[vs.len() - 1] as int]);
            } else {
                let i = choose|i: int|
                    0 <= i < front.len() && env[t as int] == env[#[trigger] front[i] as int];
                assert(env[t as int] == env[vs[i] as int]);
            }
        }
        if exists|i: int| 0 <= i < vs.len() && env[t as int] == env[#[trigger] vs[i] as int] {
            let i = choose|i: int|
                0 <= i < vs.len() && env[t as int] == env[#[trigger] vs[i] as int];
            if i < vs.len() - 1 {
                assert(env[t as int] == env[front[i] as int]);
            }
        }
    }
}

/// A comparison holds exactly where the two rates have one window, which
/// lies between the least and the greatest literal window of either and is
/// one of the windows that either has listed, and the events of the first
/// do not exceed those of the second.
pub proof fn lemma_compare_law_meaning(l: SymRateView, r: SymRateView, env: Seq<int>)
    ensures
        compare_law_spec(l, r).holds(env) <==> {
            let t = env[l.window as int];
            &&& t == env[r.window as int]
            &&& least(l.min_window, r.min_window) <= t <= greatest(l.max_window, r.max_window)
            &&& env[l.events as int] <= env[r.events as int]
            &&& ((exists|i: int|
                0 <= i < (l.concrete + r.concrete).len() && t == #[trigger] (l.concrete
                    + r.concrete)[i]) || (exists|i: int|
                0 <= i < (l.symbolic + r.symbolic).len() && t == env[#[trigger] (l.symbolic
                    + r.symbolic)[i] as int]))
        },
{
    lemma_any_literal_meaning(l.window, l.concrete + r.concrete, env);
    lemma_any_variable_meaning(l.window, l.symbolic + r.symbolic, env);
    reveal_with_fuel(Formula::holds, 4);
    reveal_with_fuel(Term::value, 1);
}

/// The constraint problem of a judgment between two literal rates.
pub open spec fn atomic_problem(a: Rate, b: Rate) -> Constraints {
    let ea = a.events_spec() as u64;
    let wa = a.window_spec() as u64;
    let eb = b.events_spec() as u64;
    let wb = b.window_spec() as u64;
    Constraints {
        vars: 4,
        assertions: seq![
            Formula::Le(Term::Const(0), Term::Var(0)),
            Formula::Le(Term::Const(1), Term::Var(1)),
            raw_law_spec(SubRel::Lhs, ea, wa, 0, 1),
            Formula::Le(Term::Const(0), Term::Var(2)),
            Formula::Le(Term::Const(1), Term::Var(3)),
            raw_law_spec(SubRel::Rhs, eb, wb, 2, 3),
            compare_law_spec(leaf_spec(a, 0, 1), leaf_spec(b, 2, 3)),
        ],
    }
}

proof fn lemma_atomic_problem(a: Rate, b: Rate)
    ensures
        discharge_spec(&BARate::Raw(a), &BARate::Raw(b)) == Ok::<Constraints, Fatal>(
            atomic_problem(a, b),
        ),
{
    let st0 = Constraints::empty();
    let la = leaf_spec(a, 0, 1);
    let lb = leaf_spec(b, 2, 3);
    let first = symbolize_spec(&BARate::Raw(a), SubRel::Lhs, st0);
    let st1 = first->Ok_0.1;
    assert(first->Ok_0.0 == seq![la]);
    let second = symbolize_spec(&BARate::Raw(b), SubRel::Rhs, st1);
    let st2 = second->Ok_0.1;
    assert(st1.vars == 2 && second->Ok_0.0 == seq![lb]);
    let none = Seq::<SymRateView>::empty();
    assert(seq![la].drop_last() == none && seq![lb].drop_last() == none);
    assert(seq![la].last() == la && seq![lb].last() == lb);
    assert(row_spec(Pairing::Compare, la, none, st2) == (none, st2));
    assert(row_spec(Pairing::Compare, la, seq![lb], st2).1 == st2.assert_also(
        compare_law_spec(la, lb),
    ));
    assert(grid_spec(Pairing::Compare, none, seq![lb], st2) == (none, st2));
    assert(grid_spec(Pairing::Compare, seq![la], seq![lb], st2).1 == st2.assert_also(
        compare_law_spec(la, lb),
    ));
    assert(st2.assert_also(compare_law_spec(la, lb)).assertions == atomic_problem(
        a,
        b,
    ).assertions);
}

/// Between two literal rates the encoding says what the numeric rule says:
/// the constraint problem of the judgment has a solution exactly where the
/// rule holds.
pub proof fn lemma_atomic_encoding(a: Rate, b: Rate)
    requires
        a.wf(),
        b.wf(),
    ensures
        discharge_spec(&BARate::Raw(a), &BARate::Raw(b)) matches Ok(c) && (c.satisfiable()
            <==> rate_sub_spec(a, b)),
{
    lemma_atomic_problem(a, b);
    lemma_rate_of(a);
    lemma_rate_of(b);
    let c = atomic_problem(a, b);
    let ea = a.events_spec() as u64;
    let wa = a.window_spec() as u64;
    let eb = b.events_spec() as u64;
    let wb = b.window_spec() as u64;
    let la = leaf_spec(a, 0, 1);
    let lb = leaf_spec(b, 2, 3);
    let literals = la.concrete + lb.concrete;
    let variables = la.symbolic + lb.symbolic;
    assert(literals == seq![wa, wb]);
    assert(variables == Seq::<usize>::empty());
    lemma_rate_sub_as_product(a, b);
    lemma_ceil_div_least(wb as int, wa as int, 0);
    lemma_ceil_div_least(wa as int, wb as int, 0);
    let k = ceil_div(wb as int, wa as int);
    let (ai, bi) = (ea as int, eb as int);
    assert(bi / k >= 0 && (ai <= bi / k <==> ai * k <= bi)) by (nonlinear_arith)
        requires
            k >= 1,
            bi >= 0,
            ai >= 0,
    ;
    if c.satisfiable() {
        let env = choose|env: Seq<int>| c.satisfied_by(env);
        assert(c.assertions[1].holds(env) && c.assertions[2].holds(env) && c.assertions[4].holds(
            env,
        ) && c.assertions[5].holds(env) && c.assertions[6].holds(env));
        assert(env[1] >= 1 && env[3] >= 1) by {
            reveal_with_fuel(Formula::holds, 1);
            reveal_with_fuel(Term::value, 1);
        }
        lemma_raw_law_meaning(SubRel::Lhs, ea, wa, 0, 1, env);
        lemma_raw_law_meaning(SubRel::Rhs, eb, wb, 2, 3, env);
        lemma_compare_law_meaning(la, lb, env);
        let i = choose|i: int| 0 <= i < literals.len() && env[1] == #[trigger] literals[i];
        assert(env[1] == wa || env[1] == wb);
        assert(rate_sub_spec(a, b));
    }
    if rate_sub_spec(a, b) {
        let bound = converted(SubRel::Rhs, eb as int, wb as int, wa as int);
        let env = seq![ea as int, wa as int, bound, wa as int];
        lemma_raw_law_meaning(SubRel::Lhs, ea, wa, 0, 1, env);
        lemma_raw_law_meaning(SubRel::Rhs, eb, wb, 2, 3, env);
        lemma_compare_law_meaning(la, lb, env);
        assert(env[1] == literals[0]);
        assert(c.assertions[0].holds(env) && c.assertions[1].holds(env) && c.assertions[3].holds(
            env,
        ) && c.assertions[4].holds(env)) by {
            reveal_with_fuel(Formula::holds, 1);
            reveal_with_fuel(Term::value, 1);
        }
        assert(c.satisfied_by(env));
    }
}

} // verus!
