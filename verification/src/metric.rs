//! The aggregated counters: requests, bytes sent, bytes received.
//!
//! Addition is componentwise and saturates at `u64::MAX`: counter overflow is
//! a data-integrity error, and saturation is this library's documented choice
//! for it. Saturating addition keeps addition associative and commutative.
use vstd::prelude::*;

verus! {

/// Three traffic counters aggregated along every path prefix.
#[derive(Clone, Copy, Debug, PartialEq, Eq, Structural)]
pub struct Metric {
    pub requests: u64,
    pub bytes_sent: u64,
    pub bytes_received: u64,
}

/// Saturating addition of two counters.
pub open spec fn sat64(a: u64, b: u64) -> u64 {
    if a + b > u64::MAX {
        u64::MAX
    } else {
        (a + b) as u64
    }
}

/// Componentwise saturating addition of metrics.
pub open spec fn madd(a: Metric, b: Metric) -> Metric {
    Metric {
        requests: sat64(a.requests, b.requests),
        bytes_sent: sat64(a.bytes_sent, b.bytes_sent),
        bytes_received: sat64(a.bytes_received, b.bytes_received),
    }
}

/// The zero metric: all three counters zero.
pub open spec fn mzero() -> Metric {
    Metric { requests: 0, bytes_sent: 0, bytes_received: 0 }
}

/// Saturating `u64` addition.
pub fn sat_add_u64(a: u64, b: u64) -> (r: u64)
    ensures
        r == sat64(a, b),
{
    if a > u64::MAX - b {
        u64::MAX
    } else {
        a + b
    }
}

impl Metric {
    /// A metric with the three given counters.
    pub fn new(requests: u64, bytes_sent: u64, bytes_received: u64) -> (r: Self)
        ensures
            r == (Metric { requests, bytes_sent, bytes_received }),
    {
        Metric { requests, bytes_sent, bytes_received }
    }

    /// The zero metric.
    pub fn zero() -> (r: Self)
        ensures
            r == mzero(),
    {
        Metric { requests: 0, bytes_sent: 0, bytes_received: 0 }
    }

    /// Componentwise saturating addition.
    pub fn saturating_add(self, other: Self) -> (r: Self)
        ensures
            r == madd(self, other),
    {
        Metric {
            requests: sat_add_u64(self.requests, other.requests),
            bytes_sent: sat_add_u64(self.bytes_sent, other.bytes_sent),
            bytes_received: sat_add_u64(self.bytes_received, other.bytes_received),
        }
    }
}

/// Componentwise order on metrics.
pub open spec fn m_le(a: Metric, b: Metric) -> bool {
    &&& a.requests <= b.requests
    &&& a.bytes_sent <= b.bytes_sent
    &&& a.bytes_received <= b.bytes_received
}

/// Each summand is below the saturating sum.
pub proof fn lemma_madd_le(a: Metric, b: Metric)
    ensures
        m_le(a, madd(a, b)),
        m_le(b, madd(a, b)),
{
}

/// Saturating addition is monotone in both arguments.
pub proof fn lemma_madd_mono(a: Metric, b: Metric, c: Metric)
    requires
        m_le(a, b),
    ensures
        m_le(madd(a, c), madd(b, c)),
        m_le(madd(c, a), madd(c, b)),
{
}

/// The componentwise order is transitive.
pub proof fn lemma_m_le_trans(a: Metric, b: Metric, c: Metric)
    requires
        m_le(a, b),
        m_le(b, c),
    ensures
        m_le(a, c),
{
}

/// Metric addition is commutative.
pub proof fn lemma_metric_add_comm(a: Metric, b: Metric)
    ensures
        madd(a, b) == madd(b, a),
{
}

/// Metric addition is associative.
pub proof fn lemma_metric_add_assoc(a: Metric, b: Metric, c: Metric)
    ensures
        madd(madd(a, b), c) == madd(a, madd(b, c)),
{
}

/// The zero metric is the identity of addition.
pub proof fn lemma_metric_add_zero(a: Metric)
    ensures
        madd(a, mzero()) == a,
        madd(mzero(), a) == a,
{
}

} // verus!
