//! The choices that a distance computation offers.
use vstd::prelude::*;

verus! {

/// Enumeration for each specific distance formula.
#[derive(Clone, Copy, Debug, PartialEq, Eq, Structural)]
pub enum MetricFn {
    Euclidean,
    Manhattan,
}

impl Default for MetricFn {
    fn default() -> (m: Self)
        ensures
            m == MetricFn::Euclidean,
    {
        MetricFn::Euclidean
    }
}

/// Where distances are computed.
#[derive(Clone, Copy, Debug, PartialEq, Eq, Structural)]
pub enum Backend {
    Native,
    WGPU,
}

impl Default for Backend {
    fn default() -> (b: Self)
        ensures
            b == Backend::Native,
    {
        Backend::Native
    }
}

/// The metric to go by where a caller may leave the choice open.
pub fn metric_or_default(metric_fn: Option<MetricFn>) -> (m: MetricFn)
    ensures
        m == match metric_fn {
            Some(f) => f,
            None => MetricFn::Euclidean,
        },
{
    match metric_fn {
        Some(f) => f,
        None => MetricFn::default(),
    }
}

} // verus!
