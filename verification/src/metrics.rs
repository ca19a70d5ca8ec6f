//! The similarity metrics a vector base can be configured with.

use vstd::prelude::*;

verus! {

/// Similarity metric used to compare vectors.
#[derive(Debug, Clone, Copy, PartialEq, Eq, Structural)]
pub enum Metrics {
    Cosine,
    Euclidean,
    DotProduct,
}

/// The display name of a metric.
pub open spec fn metric_name(m: Metrics) -> Seq<char> {
    match m {
        Metrics::Cosine => "COSINE"@,
        Metrics::Euclidean => "EUCLIDEAN"@,
        Metrics::DotProduct => "DOT_PRODUCT"@,
    }
}

impl Metrics {
    /// The metric's display name: `COSINE`, `EUCLIDEAN` or `DOT_PRODUCT`.
    pub fn to_string(&self) -> (s: String)
        ensures
            s@ == metric_name(*self),
    {
        match self {
            Metrics::Cosine => "COSINE".to_owned(),
            Metrics::Euclidean => "EUCLIDEAN".to_owned(),
            Metrics::DotProduct => "DOT_PRODUCT".to_owned(),
        }
    }
}

} // verus!
