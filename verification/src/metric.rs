use vstd::prelude::*;

verus! {

/// Similarity metric of an index.
#[derive(Debug, Clone, Copy, PartialEq, Eq, Structural)]
pub enum Metric {
    /// Cosine similarity. Vectors are L2-normalized before they are stored.
    Cosine,
    /// L2 (Euclidean) distance. The reported score is the negated distance.
    L2,
    /// Inner product. No normalization.
    Dot,
}

/// The name of a metric, as written in configuration and snapshots.
pub open spec fn metric_name(m: Metric) -> Seq<char> {
    match m {
        Metric::Cosine => "cosine"@,
        Metric::L2 => "l2"@,
        Metric::Dot => "dot"@,
    }
}

/// The metric whose name is `s`, if any.
pub open spec fn metric_named(s: Seq<char>) -> Option<Metric> {
    if s == "cosine"@ {
        Some(Metric::Cosine)
    } else if s == "l2"@ {
        Some(Metric::L2)
    } else if s == "dot"@ {
        Some(Metric::Dot)
    } else {
        None
    }
}

impl Metric {
    /// The metric's name: `"cosine"`, `"l2"` or `"dot"`.
    pub fn name(self) -> (s: &'static str)
        ensures
            s@ == metric_name(self),
    {
        match self {
            Metric::Cosine => "cosine",
            Metric::L2 => "l2",
            Metric::Dot => "dot",
        }
    }

    /// Parses a metric name; `None` for anything but the three names.
    pub fn from_name(s: &str) -> (m: Option<Metric>)
        ensures
            m == metric_named(s@),
    {
        let given = s.to_owned();
        if given == "cosine".to_owned() {
            Some(Metric::Cosine)
        } else if given == "l2".to_owned() {
            Some(Metric::L2)
        } else if given == "dot".to_owned() {
            Some(Metric::Dot)
        } else {
            None
        }
    }
}

/// Parsing a metric's name gives the metric back, and only the three names
/// parse; no two metrics share a name.
pub proof fn law_metric_name_round_trip(m: Metric)
    ensures
        metric_named(metric_name(m)) == Some(m),
{
    reveal_strlit("cosine");
    reveal_strlit("l2");
    reveal_strlit("dot");
    assert("cosine"@.len() == 6 && "l2"@.len() == 2 && "dot"@.len() == 3);
}

/// Each name selects its own metric: `"cosine"` the cosine metric, `"l2"`
/// the Euclidean one, `"dot"` the inner product; each metric is named so;
/// and no other text names a metric.
pub proof fn law_metric_names(s: Seq<char>)
    ensures
        metric_named("cosine"@) == Some(Metric::Cosine),
        metric_named("l2"@) == Some(Metric::L2),
        metric_named("dot"@) == Some(Metric::Dot),
        metric_name(Metric::Cosine) == "cosine"@,
        metric_name(Metric::L2) == "l2"@,
        metric_name(Metric::Dot) == "dot"@,
        s != "cosine"@ && s != "l2"@ && s != "dot"@ ==> metric_named(s) is None,
{
    reveal_strlit("cosine");
    reveal_strlit("l2");
    reveal_strlit("dot");
    assert("cosine"@.len() == 6 && "l2"@.len() == 2 && "dot"@.len() == 3);
}

} // verus!
