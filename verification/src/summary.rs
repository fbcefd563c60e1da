//! The streaming aggregator: one sketch plus a running sample count.
//!
//! Values are kept in integer microseconds throughout; callers that want
//! milliseconds format them at the presentation edge. The aggregator never
//! resets after a snapshot is taken, so successive snapshots are cumulative
//! over its whole lifetime — deliberately kept as the observed behaviour of
//! this pipeline rather than silently changed to per-window resets.

use vstd::prelude::*;
use crate::sketch::{Centroid, Sketch};

verus! {

/// Aggregates RTT samples into a quantile sketch and counts them.
pub struct Summary {
    pub digest: Sketch,
    pub count: u64,
}

impl Summary {
    /// A summary is coherent when its sketch is and the counter equals the
    /// sketch's total weight.
    pub open spec fn wf(&self) -> bool {
        &&& self.digest.wf()
        &&& self.count == self.digest.total
    }

    /// A fresh summary over a sketch with compression factor 100.
    pub fn new() -> (r: Summary)
        ensures
            r.wf(),
            r.count == 0,
            r.digest.compression == 100,
            r.digest.centroids@ == Seq::<Centroid>::empty(),
    {
        Summary { digest: Sketch::new(100), count: 0 }
    }

    /// Adds one RTT measurement, given in microseconds.
    pub fn add_rtt(&mut self, rtt: u32)
        requires
            old(self).wf(),
            old(self).count < u64::MAX,
        ensures
            final(self).wf(),
            final(self).count == old(self).count + 1,
            final(self).digest.compression == old(self).digest.compression,
            final(self).digest.centroids@ == old(self).digest.spec_add(rtt as u64),
    {
        self.digest.add(rtt as u64);
        self.count = self.count + 1;
    }

    /// An immutable point-in-time copy of the sketch; neither the counter
    /// nor the live sketch is reset.
    pub fn digest(&self) -> (r: Sketch)
        ensures
            r.compression == self.digest.compression,
            r.total == self.digest.total,
            r.centroids@ == self.digest.centroids@,
            self.wf() ==> r.wf(),
    {
        self.digest.duplicate()
    }

    /// The quantile estimate at `q_permille/1000`, in microseconds.
    fn quantile(&self, q_permille: u32) -> (r: Option<u64>)
        requires
            self.wf(),
            q_permille <= 1000,
        ensures
            r == self.digest.spec_estimate(q_permille as int),
    {
        self.digest.estimate_quantile(q_permille)
    }

    /// The 99th percentile of the added samples, in microseconds.
    pub fn p99(&self) -> (r: Option<u64>)
        requires
            self.wf(),
        ensures
            r == self.digest.spec_estimate(990),
    {
        self.quantile(990)
    }

    /// The 95th percentile of the added samples, in microseconds.
    pub fn p95(&self) -> (r: Option<u64>)
        requires
            self.wf(),
        ensures
            r == self.digest.spec_estimate(950),
    {
        self.quantile(950)
    }

    /// The 90th percentile of the added samples, in microseconds.
    pub fn p90(&self) -> (r: Option<u64>)
        requires
            self.wf(),
        ensures
            r == self.digest.spec_estimate(900),
    {
        self.quantile(900)
    }

    /// The 75th percentile of the added samples, in microseconds.
    pub fn p75(&self) -> (r: Option<u64>)
        requires
            self.wf(),
        ensures
            r == self.digest.spec_estimate(750),
    {
        self.quantile(750)
    }

    /// The median of the added samples, in microseconds.
    pub fn p50(&self) -> (r: Option<u64>)
        requires
            self.wf(),
        ensures
            r == self.digest.spec_estimate(500),
    {
        self.quantile(500)
    }

    /// The number of samples added since creation.
    pub fn count(&self) -> (r: u64)
        ensures
            r == self.count,
    {
        self.count
    }
}

impl Default for Summary {
    /// Same as `Summary::new`.
    fn default() -> (r: Summary)
        ensures
            r.wf(),
            r.count == 0,
            r.digest.compression == 100,
    {
        Summary::new()
    }
}

} // verus!
