//! A client-side load balancer: a peak-EWMA latency estimator per endpoint,
//! power-of-two-choices selection weighted per endpoint, and the membership
//! bookkeeping that follows a discovery feed while requests are in flight.
pub mod peak_ewma;
pub mod balancer;
pub mod layer;
