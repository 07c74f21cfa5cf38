//! The wire unit of the pipeline: a set of labels, a map of metric
//! values, and an optional namespace.

use vstd::prelude::*;
use crate::kvmap::{LabelMap, MetricMap};

verus! {

pub struct CollectorMetrics {
    pub labels: LabelMap,
    pub metrics: MetricMap,
    pub namespace: Option<String>,
}

/// View of an optional string as an optional character sequence.
pub open spec fn opt_view(o: Option<String>) -> Option<Seq<char>> {
    match o {
        Some(s) => Some(s@),
        None => None,
    }
}

/// Copy an optional string.
pub fn clone_opt_string(o: &Option<String>) -> (r: Option<String>)
    ensures
        opt_view(r) == opt_view(*o),
{
    match o {
        Some(s) => Some(s.clone()),
        None => None,
    }
}

impl CollectorMetrics {
    pub open spec fn wf(&self) -> bool {
        self.labels.wf() && self.metrics.wf()
    }

    /// An empty message: no labels, no metrics, no namespace.
    pub fn new() -> (r: CollectorMetrics)
        ensures
            r.labels.view() == Seq::<(Seq<char>, Seq<char>)>::empty(),
            r.metrics.view() == Seq::<(Seq<char>, u64)>::empty(),
            r.namespace is None,
            r.wf(),
    {
        CollectorMetrics { labels: LabelMap::new(), metrics: MetricMap::new(), namespace: None }
    }

    pub fn duplicate(&self) -> (r: CollectorMetrics)
        ensures
            r.labels.view() == self.labels.view(),
            r.metrics.view() == self.metrics.view(),
            opt_view(r.namespace) == opt_view(self.namespace),
    {
        CollectorMetrics {
            labels: self.labels.duplicate(),
            metrics: self.metrics.duplicate(),
            namespace: clone_opt_string(&self.namespace),
        }
    }
}

} // verus!
