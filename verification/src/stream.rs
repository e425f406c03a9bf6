//! Stream-rate expressions, the structural terms they are lowered to, and
//! the lowering itself.

use crate::rate::Rate;
use std::rc::Rc;
use vstd::prelude::*;

verus! {

/// A rate-limit specification as a user writes it.
#[derive(Debug, PartialEq, Eq)]
pub enum StreamRate {
    /// A single rate.
    Raw(Rate),
    /// Union: traffic that satisfies either operand.
    Sum(Box<StreamRate>, Box<StreamRate>),
    /// Two independent streams merged into one.
    Par(Box<StreamRate>, Box<StreamRate>),
    /// The first operand's traffic followed by the second's.
    Concat(Box<StreamRate>, Box<StreamRate>),
}

/// The side of a subtyping judgment on which an expression stands.
#[derive(Clone, Copy, Debug, PartialEq, Eq, Structural)]
pub enum SubRel {
    Lhs,
    Rhs,
}

/// A rate whose events and window are variables of a constraint problem.
#[derive(Debug, PartialEq, Eq)]
pub struct SymRate {
    /// The variable that stands for the number of events.
    pub events: usize,
    /// The variable that stands for the window.
    pub window: usize,
    /// The largest literal window among the leaves this rate was built from.
    pub max_window: u64,
    /// The smallest literal window among the leaves this rate was built from.
    pub min_window: u64,
    /// The literal windows that the window variable may take.
    pub seen_concrete_windows: Vec<u64>,
    /// The window variables that the window variable may equal.
    pub seen_symbolic_windows: Vec<usize>,
}

/// The mathematical content of a [`SymRate`].
pub ghost struct SymRateView {
    pub events: usize,
    pub window: usize,
    pub max_window: u64,
    pub min_window: u64,
    pub concrete: Seq<u64>,
    pub symbolic: Seq<usize>,
}

impl View for SymRate {
    type V = SymRateView;

    open spec fn view(&self) -> SymRateView {
        SymRateView {
            events: self.events,
            window: self.window,
            max_window: self.max_window,
            min_window: self.min_window,
            concrete: self.seen_concrete_windows@,
            symbolic: self.seen_symbolic_windows@,
        }
    }
}

/// A term that mixes the structural combinators `Par` and `LConcat` with the
/// logical combinators `Or` and `And`. Subterms are shared, never copied.
#[derive(Debug, PartialEq, Eq)]
pub enum BARate {
    Raw(Rate),
    Par(Rc<BARate>, Rc<BARate>),
    LConcat(Rc<BARate>, Rc<BARate>),
    Or(Rc<BARate>, Rc<BARate>),
    And(Rc<BARate>, Rc<BARate>),
    /// A subterm that already has its variables.
    Sym(SymRate),
}

/// What [`lower`] computes.
pub open spec fn lower_spec(sr: StreamRate, rel: SubRel) -> BARate
    decreases sr,
{
    match sr {
        StreamRate::Raw(r) => BARate::Raw(r),
        StreamRate::Sum(a, b) => match rel {
            SubRel::Lhs => BARate::Or(Rc::new(lower_spec(*a, rel)), Rc::new(lower_spec(*b, rel))),
            SubRel::Rhs => BARate::And(Rc::new(lower_spec(*a, rel)), Rc::new(lower_spec(*b, rel))),
        },
        StreamRate::Par(a, b) => BARate::Par(
            Rc::new(lower_spec(*a, rel)),
            Rc::new(lower_spec(*b, rel)),
        ),
        StreamRate::Concat(a, b) => match rel {
            SubRel::Lhs => BARate::LConcat(
                Rc::new(lower_spec(*a, rel)),
                Rc::new(lower_spec(*b, rel)),
            ),
            SubRel::Rhs => BARate::And(Rc::new(lower_spec(*a, rel)), Rc::new(lower_spec(*b, rel))),
        },
    }
}

/// Lowers a stream-rate expression to a structural term. A union becomes a
/// disjunction on the left of a judgment and a conjunction on the right; a
/// sequence stays a structural node on the left and becomes a conjunction
/// on the right; a parallel merge is structural on both sides.
pub fn lower(sr: &StreamRate, rel: SubRel) -> (bar: BARate)
    ensures
        bar == lower_spec(*sr, rel),
    decreases *sr,
{
    match sr {
        StreamRate::Raw(r) => BARate::Raw(*r),
        StreamRate::Sum(a, b) => {
            let x = Rc::new(lower(a, rel));
            let y = Rc::new(lower(b, rel));
            match rel {
                SubRel::Lhs => BARate::Or(x, y),
                SubRel::Rhs => BARate::And(x, y),
            }
        },
        StreamRate::Par(a, b) => BARate::Par(Rc::new(lower(a, rel)), Rc::new(lower(b, rel))),
        StreamRate::Concat(a, b) => {
            let x = Rc::new(lower(a, rel));
            let y = Rc::new(lower(b, rel));
            match rel {
                SubRel::Lhs => BARate::LConcat(x, y),
                SubRel::Rhs => BARate::And(x, y),
            }
        },
    }
}

/// Whether `b` holds no `Sym` leaf.
pub open spec fn sym_free(b: &BARate) -> bool
    decreases b,
{
    match b {
        BARate::Raw(_) => true,
        BARate::Sym(_) => false,
        BARate::Par(x, y) | BARate::LConcat(x, y) | BARate::Or(x, y) | BARate::And(x, y) => sym_free(
            x,
        ) && sym_free(y),
    }
}

/// Lowering makes no `Sym` leaf.
pub proof fn lemma_lower_sym_free(sr: StreamRate, rel: SubRel)
    ensures
        sym_free(&lower_spec(sr, rel)),
    decreases sr,
{
    match sr {
        StreamRate::Raw(_) => {},
        StreamRate::Sum(a, b) | StreamRate::Par(a, b) | StreamRate::Concat(a, b) => {
            lemma_lower_sym_free(*a, rel);
            lemma_lower_sym_free(*b, rel);
        },
    }
}

/// On the left of a judgment a union lowers to an `Or` and a sequence to an
/// `LConcat`; on the right both lower to an `And`.
pub proof fn lemma_lower_polarity(a: StreamRate, b: StreamRate)
    ensures
        lower_spec(StreamRate::Sum(Box::new(a), Box::new(b)), SubRel::Lhs) is Or,
        lower_spec(StreamRate::Sum(Box::new(a), Box::new(b)), SubRel::Rhs) is And,
        lower_spec(StreamRate::Concat(Box::new(a), Box::new(b)), SubRel::Lhs) is LConcat,
        lower_spec(StreamRate::Concat(Box::new(a), Box::new(b)), SubRel::Rhs) is And,
{
}

} // verus!
