//! Building balancers: a configuration layer, and the factory it puts in
//! front of a discovery resolver.
use vstd::prelude::*;

use crate::balancer::{Balancer, BalancerState};

verus! {

/// Balancer configuration: the decay constant of every estimator and the
/// latency a new endpoint is seeded with, both in nanoseconds.
#[derive(Clone, Copy, Debug)]
pub struct Layer {
    pub decay: u64,
    pub default_rtt: u64,
}

/// A layer seeding estimators with `default_rtt` and decaying them over
/// `decay`.
pub fn layer(default_rtt: u64, decay: u64) -> (r: Layer)
    ensures
        r.decay == decay,
        r.default_rtt == default_rtt,
{
    Layer { decay, default_rtt }
}

/// The factory: a resolver `inner` (or, once called, its pending
/// resolution) together with the configuration of the balancers it builds.
#[derive(Clone, Debug)]
pub struct MakeSvc<M> {
    pub decay: u64,
    pub default_rtt: u64,
    pub inner: M,
}

impl Layer {
    /// Puts this configuration in front of the resolver `inner`.
    pub fn layer<M>(&self, inner: M) -> (r: MakeSvc<M>)
        ensures
            r.decay == self.decay,
            r.default_rtt == self.default_rtt,
            r.inner == inner,
    {
        MakeSvc { decay: self.decay, default_rtt: self.default_rtt, inner }
    }
}

impl<M> MakeSvc<M> {
    /// Carries the configuration over to `resolving`, the resolution that the
    /// inner resolver started for a target.
    pub fn call<F>(&self, resolving: F) -> (r: MakeSvc<F>)
        ensures
            r.decay == self.decay,
            r.default_rtt == self.default_rtt,
            r.inner == resolving,
    {
        MakeSvc { decay: self.decay, default_rtt: self.default_rtt, inner: resolving }
    }

    /// Finishes once the resolution is done. A resolved feed `d` comes back
    /// with a balancer configured as this factory, empty and waiting for the
    /// feed's first snapshot; a failed resolution returns its own error and no
    /// balancer.
    pub fn poll<D, E>(&self, resolved: Result<D, E>) -> (r: Result<(Balancer, D), E>)
        ensures
            match resolved {
                Ok(d) => match r {
                    Ok((b, d2)) => {
                        &&& d2 == d
                        &&& b.wf()
                        &&& b.endpoints@.len() == 0
                        &&& b.state == BalancerState::Empty
                        &&& b.default_rtt == self.default_rtt
                        &&& b.decay == self.decay
                    },
                    Err(_) => false,
                },
                Err(e) => r == Err::<(Balancer, D), E>(e),
            },
    {
        match resolved {
            Ok(d) => Ok((Balancer::new(self.default_rtt, self.decay), d)),
            Err(e) => Err(e),
        }
    }
}

} // verus!
