use vstd::prelude::*;

verus! {

/// Number of simulation steps a fluctuation waits before it fires again,
/// minus one: the timer fires once its counter exceeds this value.
pub const RANDOM_PERIOD: usize = 3;

/// Whether a timer whose counter stands at `ticks` fires on this step.
pub open spec fn fires(ticks: nat) -> bool {
    ticks > RANDOM_PERIOD
}

/// The counter after one step taken with counter `ticks`.
pub open spec fn next_ticks(ticks: nat) -> nat {
    if fires(ticks) { 1 } else { ticks + 1 }
}

/// The counter of a fresh timer after `n` steps.
pub open spec fn ticks_after(n: nat) -> nat
    decreases n,
{
    if n == 0 { 0 } else { next_ticks(ticks_after((n - 1) as nat)) }
}

/// The step counter that decides when the random fluctuation of the crowd's
/// desired motion is applied.
pub struct FluctuationTimer {
    ticks: usize,
}

impl View for FluctuationTimer {
    type V = nat;

    closed spec fn view(&self) -> nat {
        self.ticks as nat
    }
}

impl FluctuationTimer {
    /// A timer at the start of the simulation.
    pub fn new() -> (t: Self)
        ensures
            t@ == 0,
    {
        FluctuationTimer { ticks: 0 }
    }

    /// The current counter.
    pub fn ticks(&self) -> (r: usize)
        ensures
            r == self@,
    {
        self.ticks
    }

    /// Takes one simulation step: says whether the crowd fluctuates on this
    /// step, then restarts the counter if it did, and counts the step.
    pub fn tick(&mut self) -> (fired: bool)
        ensures
            fired == fires(old(self)@),
            final(self)@ == next_ticks(old(self)@),
    {
        let fired = self.ticks > RANDOM_PERIOD;
        if fired {
            self.ticks = 0;
        }
        self.ticks = self.ticks + 1;
        fired
    }
}

/// After `n` steps a fresh timer stands at `0` if no step was taken, else at
/// the number of steps since the last multiple of the period, plus one.
pub proof fn lemma_ticks_closed_form(n: nat)
    ensures
        ticks_after(n) == if n == 0 { 0 } else { ((n - 1) as nat % (RANDOM_PERIOD + 1) as nat) + 1 },
    decreases n,
{
    assert((RANDOM_PERIOD + 1) as nat == 4);
    if n == 1 {
        assert(ticks_after(0) == 0);
    }
    if n > 1 {
        let m = (n - 1) as nat;
        lemma_ticks_closed_form(m);
        assert(ticks_after(n) == next_ticks(ticks_after(m)));
        let r = (m - 1) as nat % 4;
        assert(m % 4 == if r == 3 { 0 } else { r + 1 }) by (nonlinear_arith)
            requires
                m >= 1,
                r == (m - 1) as nat % 4,
        {
        }
    }
}

/// A timer never counts beyond one past its period.
pub proof fn lemma_ticks_bounded(n: nat)
    ensures
        ticks_after(n) <= RANDOM_PERIOD + 1,
{
    lemma_ticks_closed_form(n);
}

/// Started fresh, the timer fires on step `n` (counting from zero) exactly
/// when `n` is a positive multiple of the period plus one: the crowd
/// fluctuates on every fourth step, never on the first.
pub proof fn lemma_fires_every_period(n: nat)
    ensures
        fires(ticks_after(n)) <==> (n > 0 && n % (RANDOM_PERIOD + 1) as nat == 0),
{
    lemma_ticks_closed_form(n);
    if n > 0 {
        let r = (n - 1) as nat % 4;
        assert(n % 4 == if r == 3 { 0 } else { r + 1 }) by (nonlinear_arith)
            requires
                n >= 1,
                r == (n - 1) as nat % 4,
        {
        }
    }
}

} // verus!
