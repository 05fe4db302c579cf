//! Peak-EWMA latency estimator over integer nanoseconds.
//!
//! Decay by `exp(-dt / tau)` is computed in Q32 fixed point: one multiply by
//! `e^-1` per whole `tau` elapsed, then one multiply by `e^(-1/256)` per
//! 256th of `tau` in the remainder. Every step rounds down.
use vstd::prelude::*;

verus! {

/// `e^-1` scaled by `2^32`, rounded down.
pub const DECAY_WHOLE: u64 = 1580030168;

/// `e^(-1/256)` scaled by `2^32`, rounded down.
pub const DECAY_STEP: u64 = 4278222805;

/// `2^32`, the fixed-point unit.
pub const ONE: u64 = 4294967296;

/// Number of fractional steps in one decay period.
pub const STEPS: u64 = 256;

/// `v * f / 2^32`, rounded down.
pub open spec fn scale(v: nat, f: nat) -> nat {
    (v * f) / (ONE as nat)
}

/// `v` multiplied `n` times by `f` in fixed point.
pub open spec fn scale_n(v: nat, f: nat, n: nat) -> nat
    decreases n,
{
    if n == 0 {
        v
    } else {
        scale_n(scale(v, f), f, (n - 1) as nat)
    }
}

/// `v * exp(-dt / tau)`: whole periods first, then 256ths of a period.
/// A zero `tau` forgets everything as soon as any time has passed.
pub open spec fn decayed(v: nat, dt: nat, tau: nat) -> nat {
    if tau == 0 {
        if dt == 0 { v } else { 0 }
    } else {
        scale_n(
            scale_n(v, DECAY_WHOLE as nat, dt / tau),
            DECAY_STEP as nat,
            ((dt % tau) * (STEPS as nat)) / tau,
        )
    }
}

/// Elapsed time, with a clock that went backwards read as no time at all.
pub open spec fn elapsed(last: nat, now: nat) -> nat {
    if now >= last { (now - last) as nat } else { 0 }
}

/// Estimator state: the current estimate, when it was last updated, and the
/// decay constant. All times are in nanoseconds.
#[derive(Clone, Copy, Debug)]
pub struct PeakEwma {
    pub estimate: u64,
    pub last_update: u64,
    pub observed: bool,
    pub decay: u64,
}

/// The estimate after observing `rtt` at `now`: the first observation replaces
/// the seed; later ones keep the larger of the sample and the decayed prior.
pub open spec fn next_estimate(e: PeakEwma, rtt: nat, now: nat) -> nat {
    if !e.observed {
        rtt
    } else {
        let d = decayed(e.estimate as nat, elapsed(e.last_update as nat, now), e.decay as nat);
        if rtt >= d { rtt } else { d }
    }
}

/// The load reported with `pending` requests in flight.
pub open spec fn load_of(e: PeakEwma, pending: nat) -> nat {
    (e.estimate as nat) * (pending + 1)
}

proof fn lemma_scale_halves(v: nat, f: nat)
    requires
        f <= ONE / 2,
    ensures
        scale(v, f) <= v / 2,
{
    assert(v * f <= v * (ONE as nat / 2)) by (nonlinear_arith)
        requires f <= ONE / 2;
    assert((v * f) / (ONE as nat) <= v / 2) by (nonlinear_arith)
        requires v * f <= v * (ONE as nat / 2);
}

proof fn lemma_scale_shrinks(v: nat, f: nat)
    requires
        f <= ONE,
    ensures
        scale(v, f) <= v,
{
    assert(v * f <= v * (ONE as nat)) by (nonlinear_arith)
        requires f <= ONE;
    assert((v * f) / (ONE as nat) <= v) by (nonlinear_arith)
        requires v * f <= v * (ONE as nat);
}

proof fn lemma_scale_n_shrinks(v: nat, f: nat, n: nat)
    requires
        f <= ONE,
    ensures
        scale_n(v, f, n) <= v,
    decreases n,
{
    if n > 0 {
        lemma_scale_shrinks(v, f);
        lemma_scale_n_shrinks(scale(v, f), f, (n - 1) as nat);
    }
}

proof fn lemma_scale_n_zero(f: nat, n: nat)
    ensures
        scale_n(0, f, n) == 0,
    decreases n,
{
    if n > 0 {
        assert(scale(0, f) == 0);
        lemma_scale_n_zero(f, (n - 1) as nat);
    }
}

proof fn lemma_scale_n_halves(v: nat, n: nat)
    ensures
        scale_n(v, DECAY_WHOLE as nat, n) <= v / vstd::arithmetic::power2::pow2(n),
    decreases n,
{
    if n == 0 {
        vstd::arithmetic::power2::lemma2_to64();
    } else {
        vstd::arithmetic::power2::lemma_pow2_unfold(n);
        let w = scale(v, DECAY_WHOLE as nat);
        lemma_scale_halves(v, DECAY_WHOLE as nat);
        lemma_scale_n_halves(w, (n - 1) as nat);
        let p = vstd::arithmetic::power2::pow2((n - 1) as nat);
        vstd::arithmetic::power2::lemma_pow2_pos((n - 1) as nat);
        vstd::arithmetic::div_mod::lemma_div_is_ordered(w as int, (v / 2) as int, p as int);
        vstd::arithmetic::div_mod::lemma_div_denominator(v as int, 2, p as int);
    }
}

/// Decay never raises a value, and no time elapsed leaves it as it is.
pub proof fn lemma_decayed_bounds(v: nat, dt: nat, tau: nat)
    ensures
        decayed(v, dt, tau) <= v,
        decayed(v, 0, tau) == v,
{
    if tau > 0 {
        lemma_scale_n_shrinks(v, DECAY_WHOLE as nat, dt / tau);
        lemma_scale_n_shrinks(scale_n(v, DECAY_WHOLE as nat, dt / tau), DECAY_STEP as nat,
            ((dt % tau) * (STEPS as nat)) / tau);
        assert(0nat / tau == 0) by (nonlinear_arith) requires tau > 0;
        assert(0nat % tau == 0) by (nonlinear_arith) requires tau > 0;
    }
}

/// After 64 decay periods any 64-bit estimate has decayed to zero.
pub proof fn lemma_decayed_vanishes(v: nat, dt: nat, tau: nat)
    requires
        v <= u64::MAX,
        dt > 0,
        dt >= 64 * tau,
    ensures
        decayed(v, dt, tau) == 0,
{
    if tau > 0 {
        let n = dt / tau;
        assert(n >= 64) by (nonlinear_arith) requires tau > 0, dt >= 64 * tau, n == dt / tau;
        lemma_scale_n_halves(v, n);
        vstd::arithmetic::power2::lemma2_to64_rest();
        if n > 64 {
            vstd::arithmetic::power2::lemma_pow2_strictly_increases(64, n);
        }
        assert(v < vstd::arithmetic::power2::pow2(n));
        assert(v / vstd::arithmetic::power2::pow2(n) == 0) by (nonlinear_arith)
            requires v < vstd::arithmetic::power2::pow2(n);
        lemma_scale_n_zero(DECAY_STEP as nat, ((dt % tau) * (STEPS as nat)) / tau);
    }
}

/// `v * f / 2^32`, rounded down, for a factor of at most one.
fn scale_exec(v: u64, f: u64) -> (r: u64)
    requires
        f <= ONE,
    ensures
        r == scale(v as nat, f as nat),
{
    proof {
        lemma_scale_shrinks(v as nat, f as nat);
        assert((v as nat) * (f as nat) <= (u64::MAX as nat) * (ONE as nat)) by (nonlinear_arith)
            requires v <= u64::MAX, f <= ONE;
    }
    ((v as u128) * (f as u128) / (ONE as u128)) as u64
}

/// `v` multiplied `n` times by `f`, stopping early once it reaches zero.
fn scale_n_exec(v: u64, f: u64, n: u64) -> (r: u64)
    requires
        f <= ONE,
    ensures
        r == scale_n(v as nat, f as nat, n as nat),
{
    let mut x: u64 = v;
    let mut i: u64 = 0;
    while i < n && x > 0
        invariant
            f <= ONE,
            i <= n,
            scale_n(x as nat, f as nat, (n - i) as nat) == scale_n(v as nat, f as nat, n as nat),
        decreases n - i,
    {
        assert(scale_n(x as nat, f as nat, (n - i) as nat) == scale_n(
            scale(x as nat, f as nat),
            f as nat,
            (n - i - 1) as nat,
        ));
        x = scale_exec(x, f);
        i = i + 1;
    }
    proof {
        if x == 0 {
            lemma_scale_n_zero(f as nat, (n - i) as nat);
        }
    }
    x
}

/// `v * exp(-dt / tau)` in fixed point.
pub fn decay_value(v: u64, dt: u64, tau: u64) -> (r: u64)
    ensures
        r == decayed(v as nat, dt as nat, tau as nat),
{
    if tau == 0 {
        if dt == 0 { v } else { 0 }
    } else {
        let whole = dt / tau;
        let rest = dt % tau;
        proof {
            assert((rest as nat) * (STEPS as nat) / (tau as nat) < STEPS) by (nonlinear_arith)
                requires rest < tau, tau > 0;
        }
        let steps = ((rest as u128) * (STEPS as u128) / (tau as u128)) as u64;
        let w = scale_n_exec(v, DECAY_WHOLE, whole);
        scale_n_exec(w, DECAY_STEP, steps)
    }
}

/// The state that observing `rtt` at `now` leaves behind.
pub open spec fn after_observe(e: PeakEwma, rtt: u64, now: u64) -> PeakEwma {
    PeakEwma {
        estimate: next_estimate(e, rtt as nat, now as nat) as u64,
        last_update: now,
        observed: true,
        decay: e.decay,
    }
}

/// From a fresh estimator: one observation `r0` gives the estimate `r0`; a
/// second one `r1` at the same instant gives `max(r0, r1)`; a second one taken
/// at least 64 decay periods later gives `r1`, the prior having decayed away.
pub proof fn lemma_observation_laws(e: PeakEwma, r0: u64, t0: u64, r1: u64, t1: u64)
    requires
        !e.observed,
    ensures
        after_observe(e, r0, t0).estimate == r0,
        t1 == t0 ==> after_observe(after_observe(e, r0, t0), r1, t1).estimate == if r0 >= r1 {
            r0
        } else {
            r1
        },
        t1 > t0 && t1 - t0 >= 64 * e.decay ==> after_observe(after_observe(e, r0, t0), r1, t1).estimate
            == r1,
{
    lemma_decayed_bounds(r0 as nat, 0, e.decay as nat);
    if t1 > t0 && t1 - t0 >= 64 * e.decay {
        lemma_decayed_vanishes(r0 as nat, (t1 - t0) as nat, e.decay as nat);
    }
}

impl PeakEwma {
    /// A fresh estimator seeded with `default_rtt`, decaying over `decay`.
    pub fn new(default_rtt: u64, decay: u64) -> (r: PeakEwma)
        ensures
            r.estimate == default_rtt,
            r.decay == decay,
            !r.observed,
            r.last_update == 0,
    {
        PeakEwma { estimate: default_rtt, last_update: 0, observed: false, decay }
    }

    /// Records a round-trip time `rtt` measured at `now`.
    pub fn observe(&mut self, rtt: u64, now: u64)
        ensures
            *final(self) == after_observe(*old(self), rtt, now),
    {
        proof {
            if self.observed {
                let dt = elapsed(self.last_update as nat, now as nat);
                lemma_decayed_bounds(self.estimate as nat, dt, self.decay as nat);
            }
        }
        if !self.observed {
            self.estimate = rtt;
        } else {
            let dt = if now >= self.last_update { now - self.last_update } else { 0 };
            let d = decay_value(self.estimate, dt, self.decay);
            self.estimate = if rtt >= d { rtt } else { d };
        }
        self.last_update = now;
        self.observed = true;
    }

    /// The estimate inflated by the number of requests in flight.
    pub fn load(&self, pending: u32) -> (r: u128)
        ensures
            r == load_of(*self, pending as nat),
            r < 0x1_0000_0000_0000_0000_0000_0000,
    {
        proof {
            assert((self.estimate as nat) * (pending as nat + 1) < 0x1_0000_0000_0000_0000_0000_0000)
                by (nonlinear_arith)
                requires self.estimate <= u64::MAX, pending <= u32::MAX;
        }
        (self.estimate as u128) * ((pending as u128) + 1)
    }
}

} // verus!
