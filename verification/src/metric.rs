use vstd::prelude::*;

verus! {

/// How vectors are compared.
#[derive(Debug, Clone, Copy, PartialEq, Eq, Structural)]
pub enum Metric {
    Cosine,
    InnerProduct,
    L2,
    CosineNormalized,
}

impl Metric {
    /// The number that stands for the metric in files.
    pub open spec fn spec_code(self) -> u32 {
        match self {
            Metric::Cosine => 0,
            Metric::InnerProduct => 1,
            Metric::L2 => 2,
            Metric::CosineNormalized => 3,
        }
    }

    /// The metric that a number stands for.
    pub open spec fn of_code(code: u32) -> Option<Metric> {
        if code == 0 {
            Some(Metric::Cosine)
        } else if code == 1 {
            Some(Metric::InnerProduct)
        } else if code == 2 {
            Some(Metric::L2)
        } else if code == 3 {
            Some(Metric::CosineNormalized)
        } else {
            None
        }
    }

    /// The name of the metric.
    pub open spec fn text(self) -> Seq<char> {
        match self {
            Metric::Cosine => "cosine"@,
            Metric::InnerProduct => "innerproduct"@,
            Metric::L2 => "l2"@,
            Metric::CosineNormalized => "cosinenormalized"@,
        }
    }

    /// The name of the metric.
    pub fn name(self) -> (name: String)
        ensures
            name@ == self.text(),
    {
        match self {
            Metric::Cosine => "cosine".to_owned(),
            Metric::InnerProduct => "innerproduct".to_owned(),
            Metric::L2 => "l2".to_owned(),
            Metric::CosineNormalized => "cosinenormalized".to_owned(),
        }
    }

    /// The number that stands for the metric in files.
    pub fn code(self) -> (code: u32)
        ensures
            code == self.spec_code(),
    {
        match self {
            Metric::Cosine => 0,
            Metric::InnerProduct => 1,
            Metric::L2 => 2,
            Metric::CosineNormalized => 3,
        }
    }

    /// The metric that a number stands for.
    pub fn from_code(code: u32) -> (metric: Option<Metric>)
        ensures
            metric == Self::of_code(code),
    {
        if code == 0 {
            Some(Metric::Cosine)
        } else if code == 1 {
            Some(Metric::InnerProduct)
        } else if code == 2 {
            Some(Metric::L2)
        } else if code == 3 {
            Some(Metric::CosineNormalized)
        } else {
            None
        }
    }
}

/// The number of a metric stands for it alone, and every number that stands for a metric is
/// the number of that metric.
pub proof fn lemma_codes_are_unique(metric: Metric, code: u32)
    ensures
        Metric::of_code(metric.spec_code()) == Some(metric),
        Metric::of_code(code) == Some(metric) ==> code == metric.spec_code(),
        Metric::of_code(code) is Some <==> code <= 3,
{
}

} // verus!
