//! The metric and the rotator of an index.
use vstd::prelude::*;

verus! {

/// The distance that an index ranks by.
#[derive(Debug, Clone, Copy, PartialEq, Eq, Structural)]
pub enum Metric {
    /// Squared Euclidean distance: smaller is better.
    L2,
    /// Inner product: larger is better.
    InnerProduct,
}

/// The kind of random rotation that is applied before quantization.
#[derive(Debug, Clone, Copy, PartialEq, Eq, Structural)]
pub enum RotatorType {
    /// A dense random orthogonal matrix.
    MatrixRotator,
    /// A fast Hadamard transform with random signs.
    FhtKacRotator,
}

/// The byte that stands for a rotator type in a file.
pub open spec fn rotator_tag(t: RotatorType) -> u8 {
    match t {
        RotatorType::MatrixRotator => 0,
        RotatorType::FhtKacRotator => 1,
    }
}

/// The rotator type that a byte of a file stands for.
pub open spec fn rotator_of_tag(tag: u8) -> Option<RotatorType> {
    if tag == 0 {
        Some(RotatorType::MatrixRotator)
    } else if tag == 1 {
        Some(RotatorType::FhtKacRotator)
    } else {
        None
    }
}

impl RotatorType {
    /// The rotator type that a byte of a file stands for.
    pub fn from_u8(tag: u8) -> (r: Option<RotatorType>)
        ensures
            r == rotator_of_tag(tag),
    {
        match tag {
            0 => Some(RotatorType::MatrixRotator),
            1 => Some(RotatorType::FhtKacRotator),
            _ => None,
        }
    }

    /// The byte that stands for this rotator type in a file.
    pub fn to_u8(self) -> (r: u8)
        ensures
            r == rotator_tag(self),
    {
        match self {
            RotatorType::MatrixRotator => 0,
            RotatorType::FhtKacRotator => 1,
        }
    }
}

/// A rotation, held as the bytes that its type serializes to.
#[derive(Debug)]
pub struct Rotator {
    /// How the bytes are to be read.
    pub rotator_type: RotatorType,
    /// The serialized state.
    pub data: Vec<u8>,
}

/// The byte that stands for a metric in a file.
pub open spec fn metric_tag(m: Metric) -> u8 {
    match m {
        Metric::L2 => 0,
        Metric::InnerProduct => 1,
    }
}

/// The metric that a byte of a file stands for.
pub open spec fn metric_of_tag(tag: u8) -> Option<Metric> {
    if tag == 0 {
        Some(Metric::L2)
    } else if tag == 1 {
        Some(Metric::InnerProduct)
    } else {
        None
    }
}

/// The byte that stands for a metric in a file.
pub fn metric_to_tag(metric: Metric) -> (tag: u8)
    ensures
        tag == metric_tag(metric),
{
    match metric {
        Metric::L2 => 0,
        Metric::InnerProduct => 1,
    }
}

/// The metric that a byte of a file stands for.
pub fn tag_to_metric(tag: u8) -> (metric: Option<Metric>)
    ensures
        metric == metric_of_tag(tag),
{
    match tag {
        0 => Some(Metric::L2),
        1 => Some(Metric::InnerProduct),
        _ => None,
    }
}

/// Tags identify metrics and rotator types: reading a tag gives back what was tagged, and a
/// byte that stands for something is its tag.
pub proof fn law_tags_round_trip(metric: Metric, rotator_type: RotatorType, tag: u8)
    ensures
        metric_of_tag(metric_tag(metric)) == Some(metric),
        rotator_of_tag(rotator_tag(rotator_type)) == Some(rotator_type),
        metric_of_tag(tag) matches Some(m) ==> metric_tag(m) == tag,
        rotator_of_tag(tag) matches Some(t) ==> rotator_tag(t) == tag,
{
}

} // verus!
