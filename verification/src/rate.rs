//! Atomic rates and the numeric subtyping rule between two of them.

use vstd::prelude::*;

verus! {

/// At most `events` events in any contiguous interval of length `window`.
#[derive(Clone, Copy, Debug, PartialEq, Eq, Structural)]
pub struct Rate {
    events: u64,
    window: u64,
}

/// The least number of intervals of length `b` that cover one of length `a`.
pub open spec fn ceil_div(a: int, b: int) -> int {
    if a % b == 0 {
        a / b
    } else {
        a / b + 1
    }
}

/// The most events that `r2` leaves to an interval as long as the window of
/// `r1`, where that window is the shorter one.
pub open spec fn scaled_bound(r1: Rate, r2: Rate) -> int {
    r2.events_spec() / ceil_div(r2.window_spec(), r1.window_spec())
}

/// Whether every traffic pattern that obeys `r1` also obeys `r2`.
pub open spec fn rate_sub_spec(r1: Rate, r2: Rate) -> bool {
    if r2.window_spec() <= r1.window_spec() {
        r1.events_spec() <= r2.events_spec()
    } else {
        r1.events_spec() <= scaled_bound(r1, r2)
    }
}

impl Rate {
    /// A rate is well formed when its window is positive.
    #[verifier::type_invariant]
    pub open spec fn wf(self) -> bool {
        self.window_spec() >= 1
    }

    /// How many events the rate allows in one window.
    pub closed spec fn events_spec(self) -> int {
        self.events as int
    }

    /// How long the window of the rate is.
    pub closed spec fn window_spec(self) -> int {
        self.window as int
    }

    /// The rate of `events` events per `window`.
    pub closed spec fn of(events: u64, window: u64) -> Rate {
        Rate { events, window }
    }

    /// The rate of `events` events per `window`, unless the window is empty.
    pub fn new(events: u64, window: u64) -> (r: Option<Rate>)
        ensures
            r == (if window >= 1 {
                Some(Rate::of(events, window))
            } else {
                None
            }),
            r matches Some(rate) ==> rate.events_spec() == events && rate.window_spec() == window
                && rate.wf(),
    {
        if window >= 1 {
            Some(Rate { events, window })
        } else {
            None
        }
    }

    /// How many events the rate allows in one window.
    pub fn events(&self) -> (e: u64)
        ensures
            e == self.events_spec(),
    {
        self.events
    }

    /// How long the window of the rate is; never 0.
    pub fn window(&self) -> (w: u64)
        ensures
            w == self.window_spec(),
            w >= 1,
    {
        proof {
            use_type_invariant(self);
        }
        self.window
    }
}

/// A rate is what its events and its window say.
pub proof fn lemma_rate_of(r: Rate)
    ensures
        r == Rate::of(r.events_spec() as u64, r.window_spec() as u64),
        forall|e: u64, w: u64|
            (#[trigger] Rate::of(e, w)).events_spec() == e && Rate::of(e, w).window_spec() == w,
{
}

/// Decides `r1 <: r2` by the numeric rule.
pub fn rate_sub(r1: &Rate, r2: &Rate) -> (b: bool)
    ensures
        b == rate_sub_spec(*r1, *r2),
{
    proof {
        use_type_invariant(r1);
        use_type_invariant(r2);
    }
    if r2.window <= r1.window {
        r1.events <= r2.events
    } else {
        let whole: u64 = r2.window / r1.window;
        assert(1 <= whole && (r2.window % r1.window != 0 ==> whole < r2.window)) by (nonlinear_arith)
            requires
                1 <= r1.window < r2.window,
                whole == r2.window / r1.window,
        ;
        let pieces: u64 = if r2.window % r1.window == 0 {
            whole
        } else {
            whole + 1
        };
        r1.events <= r2.events / pieces
    }
}


/// `ceil_div(a, b)` is the least `k` with `a <= k * b`.
pub proof fn lemma_ceil_div_least(a: int, b: int, k: int)
    requires
        0 <= a,
        1 <= b,
    ensures
        ceil_div(a, b) <= k <==> a <= k * b,
        0 <= ceil_div(a, b),
        1 <= a ==> 1 <= ceil_div(a, b),
{
    let q = a / b;
    let r = a % b;
    assert(a == q * b + r && 0 <= r < b && 0 <= q) by (nonlinear_arith)
        requires
            0 <= a,
            1 <= b,
            q == a / b,
            r == a % b,
    ;
    if r == 0 {
        assert((q <= k <==> q * b <= k * b) && (1 <= q * b ==> 1 <= q)) by (nonlinear_arith)
            requires
                1 <= b,
        ;
    } else {
        assert(q + 1 <= k <==> q * b + r <= k * b) by (nonlinear_arith)
            requires
                1 <= b,
                0 < r < b,
        ;
    }
}

/// The numeric rule, without its case split: `r1 <: r2` exactly when the
/// events of `r1`, repeated once for every window of `r1` that is needed to
/// cover one window of `r2`, stay within the events of `r2`.
pub proof fn lemma_rate_sub_as_product(r1: Rate, r2: Rate)
    requires
        r1.wf(),
        r2.wf(),
    ensures
        rate_sub_spec(r1, r2) <==> r1.events_spec() * ceil_div(r2.window_spec(), r1.window_spec())
            <= r2.events_spec(),
{
    let w1 = r1.window_spec();
    let w2 = r2.window_spec();
    let e1 = r1.events_spec();
    let e2 = r2.events_spec();
    let c = ceil_div(w2, w1);
    lemma_ceil_div_least(w2, w1, 1);
    lemma_ceil_div_least(w2, w1, 0);
    if w2 <= w1 {
        assert(c == 1);
        assert(e1 * c == e1) by (nonlinear_arith)
            requires
                c == 1,
        ;
    } else {
        assert(e1 <= e2 / c <==> e1 * c <= e2) by (nonlinear_arith)
            requires
                1 <= c,
                0 <= e1,
                0 <= e2,
        ;
    }
}

/// Every rate is a subtype of itself.
pub proof fn lemma_rate_sub_reflexive(r: Rate)
    ensures
        rate_sub_spec(r, r),
{
}

/// The numeric rule is transitive.
pub proof fn lemma_rate_sub_transitive(r1: Rate, r2: Rate, r3: Rate)
    requires
        r1.wf(),
        r2.wf(),
        r3.wf(),
        rate_sub_spec(r1, r2),
        rate_sub_spec(r2, r3),
    ensures
        rate_sub_spec(r1, r3),
{
    let w1 = r1.window_spec();
    let w2 = r2.window_spec();
    let w3 = r3.window_spec();
    let e1 = r1.events_spec();
    let e2 = r2.events_spec();
    let e3 = r3.events_spec();
    let c21 = ceil_div(w2, w1);
    let c32 = ceil_div(w3, w2);
    let c31 = ceil_div(w3, w1);
    lemma_rate_sub_as_product(r1, r2);
    lemma_rate_sub_as_product(r2, r3);
    lemma_rate_sub_as_product(r1, r3);
    lemma_ceil_div_least(w2, w1, c21);
    lemma_ceil_div_least(w3, w2, c32);
    lemma_ceil_div_least(w3, w1, c32 * c21);
    assert(w3 <= (c32 * c21) * w1) by (nonlinear_arith)
        requires
            w3 <= c32 * w2,
            w2 <= c21 * w1,
            0 <= c32,
    ;
    assert(e1 * c31 <= e3) by (nonlinear_arith)
        requires
            c31 <= c32 * c21,
            0 <= e1,
            0 <= c32,
            e1 * c21 <= e2,
            e2 * c32 <= e3,
    ;
}

} // verus!
