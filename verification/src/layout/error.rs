//! Errors of graph-aware layouts.
use crate::text;
use vstd::prelude::*;

verus! {

/// Errors produced while rewriting or loading graph-aware layouts.
#[derive(Debug)]
pub enum LayoutError {
    /// A file could not be read or written.
    Io { path: String, reason: String },
    /// The index, the mapping or the sidecar is not what it should be.
    Invalid(InvalidLayout),
    /// A path that would be overwritten.
    AlreadyExists(String),
}

/// What is wrong with an index, a mapping or a sidecar.
#[derive(Debug, Clone, Copy, PartialEq, Eq, Structural)]
pub enum InvalidLayout {
    /// The index is shorter than its header.
    HeaderTruncated,
    /// The source index is already graph layout 1.1.
    AlreadyGraphAware,
    /// The source index has a layout version that cannot be rewritten.
    UnsupportedSourceVersion { major: u32, minor: u32 },
    /// The index has a layout version that cannot be loaded.
    UnsupportedVersion { major: u32, minor: u32 },
    /// A legacy source index has a non-zero layout fingerprint.
    LegacyFingerprint,
    /// A graph layout 1.1 index has a zero fingerprint.
    MissingFingerprint,
    /// The point count is not in 1..=u32::MAX.
    PointCount,
    /// The medoid is out of range.
    MedoidOutOfRange,
    /// The block is too small for the graph header.
    BlockTooSmall,
    /// The block size and the node length must be non-zero.
    ZeroGeometry,
    /// The nodes per block do not match the block size and the node length.
    NodesPerBlock { nodes_per_block: u64 },
    /// The index geometry overflows u64.
    GeometryOverflow,
    /// The index length overflows u64.
    IndexLengthOverflow,
    /// The index length does not match the header geometry.
    IndexLength { actual: u64, expected: u64 },
    /// The index file length does not match the header geometry.
    IndexGeometry,
    /// The associated data leave no room for graph data.
    AssociatedData,
    /// The record offset overflows u64.
    RecordOffsetOverflow,
    /// The record end overflows u64.
    RecordEndOverflow,
    /// A record extends beyond the index.
    RecordBeyondIndex { slot: u32 },
    /// No vector element width gives valid adjacency records.
    VectorWidth,
    /// The physical-block estimate overflows u64.
    PhysicalBlockEstimate,
    /// The mapping estimate overflows u64.
    MappingEstimate,
    /// The block-vector estimate overflows u64.
    BlockVectorEstimate,
    /// The resident-memory estimate overflows u64.
    ResidentEstimate,
    /// The sidecar estimate overflows u64.
    SidecarEstimate,
    /// The processed-byte estimate overflows u64.
    ProcessedEstimate,
    /// Layout sidecars support at most u32::MAX points.
    TooManyPoints,
    /// The mapping has another number of entries than there are points.
    MappingLength { actual: u64, expected: u64 },
    /// A physical slot of the mapping is out of range.
    SlotOutOfRange { physical: u32, logical: u32 },
    /// A physical slot of the mapping occurs more than once.
    SlotRepeated { physical: u32 },
    /// The sidecar length overflows u64.
    SidecarLengthOverflow,
    /// The sidecar has another length than the point count asks for.
    SidecarLength { actual: u64, expected: u64 },
    /// The sidecar magic, version or reserved field is invalid.
    SidecarHeader,
    /// The sidecar structural fields do not match the index header.
    SidecarFields,
    /// The sidecar mapping checksum does not match.
    SidecarChecksum,
    /// The sidecar binding digest does not match.
    SidecarBinding,
    /// The binding digest has a zero fingerprint prefix.
    ZeroFingerprint,
    /// The source, output and sidecar paths must be distinct.
    PathsNotDistinct,
}

impl InvalidLayout {
    /// The text of the fault, found in the index at `index_path`.
    pub open spec fn text(self, index_path: Seq<char>) -> Seq<char> {
        match self {
            InvalidLayout::HeaderTruncated => "index "@ + index_path
                + " is shorter than its 104-byte header"@,
            InvalidLayout::AlreadyGraphAware => "source index is already graph layout 1.1"@,
            InvalidLayout::UnsupportedSourceVersion { major, minor } => {
                "unsupported source graph layout version "@ + text::decimal(major as nat) + "."@
                    + text::decimal(minor as nat)
            },
            InvalidLayout::UnsupportedVersion { major, minor } => {
                "unsupported graph layout version "@ + text::decimal(major as nat) + "."@
                    + text::decimal(minor as nat)
            },
            InvalidLayout::LegacyFingerprint => {
                "legacy source index has a non-zero layout fingerprint"@
            },
            InvalidLayout::MissingFingerprint => "graph layout 1.1 index has a zero fingerprint"@,
            InvalidLayout::PointCount => "point count must be in 1..=u32::MAX"@,
            InvalidLayout::MedoidOutOfRange => "medoid is out of range"@,
            InvalidLayout::BlockTooSmall => "block is too small for the graph header"@,
            InvalidLayout::ZeroGeometry => "block size and node length must be non-zero"@,
            InvalidLayout::NodesPerBlock { nodes_per_block } => {
                "nodes/block "@ + text::decimal(nodes_per_block as nat)
                    + " does not match block-size/node-length geometry"@
            },
            InvalidLayout::GeometryOverflow => "index geometry overflows u64"@,
            InvalidLayout::IndexLengthOverflow => "index length overflows u64"@,
            InvalidLayout::IndexLength { actual, expected } => {
                "index length "@ + text::decimal(actual as nat)
                    + " does not match header geometry "@ + text::decimal(expected as nat)
            },
            InvalidLayout::IndexGeometry => "index file length does not match header geometry"@,
            InvalidLayout::AssociatedData => "associated data leaves no room for graph data"@,
            InvalidLayout::RecordOffsetOverflow => "record offset overflows u64"@,
            InvalidLayout::RecordEndOverflow => "record end overflows u64"@,
            InvalidLayout::RecordBeyondIndex { slot } => {
                "record slot "@ + text::decimal(slot as nat) + " extends beyond the index"@
            },
            InvalidLayout::VectorWidth => {
                "cannot infer vector element width from valid adjacency records"@
            },
            InvalidLayout::PhysicalBlockEstimate => "physical-block estimate overflows u64"@,
            InvalidLayout::MappingEstimate => "mapping estimate overflows u64"@,
            InvalidLayout::BlockVectorEstimate => "block-vector estimate overflows u64"@,
            InvalidLayout::ResidentEstimate => "resident-memory estimate overflows u64"@,
            InvalidLayout::SidecarEstimate => "sidecar estimate overflows u64"@,
            InvalidLayout::ProcessedEstimate => "processed-byte estimate overflows u64"@,
            InvalidLayout::TooManyPoints => "layout sidecars support at most u32::MAX points"@,
            InvalidLayout::MappingLength { actual, expected } => {
                "mapping contains "@ + text::decimal(actual as nat) + " entries, expected "@
                    + text::decimal(expected as nat)
            },
            InvalidLayout::SlotOutOfRange { physical, logical } => {
                "physical slot "@ + text::decimal(physical as nat) + " for logical node "@
                    + text::decimal(logical as nat) + " is out of range"@
            },
            InvalidLayout::SlotRepeated { physical } => {
                "physical slot "@ + text::decimal(physical as nat) + " occurs more than once"@
            },
            InvalidLayout::SidecarLengthOverflow => "sidecar length overflows u64"@,
            InvalidLayout::SidecarLength { actual, expected } => {
                "sidecar length is "@ + text::decimal(actual as nat) + ", expected "@
                    + text::decimal(expected as nat)
            },
            InvalidLayout::SidecarHeader => "sidecar magic, version, or reserved field is invalid"@,
            InvalidLayout::SidecarFields => {
                "sidecar structural fields do not match the index header"@
            },
            InvalidLayout::SidecarChecksum => "sidecar mapping checksum does not match"@,
            InvalidLayout::SidecarBinding => "sidecar binding digest does not match"@,
            InvalidLayout::ZeroFingerprint => "binding digest has a zero fingerprint prefix"@,
            InvalidLayout::PathsNotDistinct => {
                "source, output, and sidecar paths must be distinct"@
            },
        }
    }

    /// The text of the fault, found in the index at `index_path`.
    pub fn message(&self, index_path: &str) -> (message: String)
        ensures
            message@ == self.text(index_path@),
    {
        match *self {
            InvalidLayout::HeaderTruncated => {
                let mut message = "index ".to_owned();
                message.append(index_path);
                message.append(" is shorter than its 104-byte header");
                message
            },
            InvalidLayout::AlreadyGraphAware => {
                "source index is already graph layout 1.1".to_owned()
            },
            InvalidLayout::UnsupportedSourceVersion { major, minor } => text::two_numbers(
                "unsupported source graph layout version ",
                major as u64,
                ".",
                minor as u64,
                None,
            ),
            InvalidLayout::UnsupportedVersion { major, minor } => text::two_numbers(
                "unsupported graph layout version ",
                major as u64,
                ".",
                minor as u64,
                None,
            ),
            InvalidLayout::LegacyFingerprint => {
                "legacy source index has a non-zero layout fingerprint".to_owned()
            },
            InvalidLayout::MissingFingerprint => {
                "graph layout 1.1 index has a zero fingerprint".to_owned()
            },
            InvalidLayout::PointCount => "point count must be in 1..=u32::MAX".to_owned(),
            InvalidLayout::MedoidOutOfRange => "medoid is out of range".to_owned(),
            InvalidLayout::BlockTooSmall => "block is too small for the graph header".to_owned(),
            InvalidLayout::ZeroGeometry => "block size and node length must be non-zero".to_owned(),
            InvalidLayout::NodesPerBlock { nodes_per_block } => text::one_number(
                "nodes/block ",
                nodes_per_block,
                Some(" does not match block-size/node-length geometry"),
            ),
            InvalidLayout::GeometryOverflow => "index geometry overflows u64".to_owned(),
            InvalidLayout::IndexLengthOverflow => "index length overflows u64".to_owned(),
            InvalidLayout::IndexLength { actual, expected } => text::two_numbers(
                "index length ",
                actual,
                " does not match header geometry ",
                expected,
                None,
            ),
            InvalidLayout::IndexGeometry => {
                "index file length does not match header geometry".to_owned()
            },
            InvalidLayout::AssociatedData => {
                "associated data leaves no room for graph data".to_owned()
            },
            InvalidLayout::RecordOffsetOverflow => "record offset overflows u64".to_owned(),
            InvalidLayout::RecordEndOverflow => "record end overflows u64".to_owned(),
            InvalidLayout::RecordBeyondIndex { slot } => text::one_number(
                "record slot ",
                slot as u64,
                Some(" extends beyond the index"),
            ),
            InvalidLayout::VectorWidth => {
                "cannot infer vector element width from valid adjacency records".to_owned()
            },
            InvalidLayout::PhysicalBlockEstimate => {
                "physical-block estimate overflows u64".to_owned()
            },
            InvalidLayout::MappingEstimate => "mapping estimate overflows u64".to_owned(),
            InvalidLayout::BlockVectorEstimate => "block-vector estimate overflows u64".to_owned(),
            InvalidLayout::ResidentEstimate => "resident-memory estimate overflows u64".to_owned(),
            InvalidLayout::SidecarEstimate => "sidecar estimate overflows u64".to_owned(),
            InvalidLayout::ProcessedEstimate => "processed-byte estimate overflows u64".to_owned(),
            InvalidLayout::TooManyPoints => {
                "layout sidecars support at most u32::MAX points".to_owned()
            },
            InvalidLayout::MappingLength { actual, expected } => text::two_numbers(
                "mapping contains ",
                actual,
                " entries, expected ",
                expected,
                None,
            ),
            InvalidLayout::SlotOutOfRange { physical, logical } => text::two_numbers(
                "physical slot ",
                physical as u64,
                " for logical node ",
                logical as u64,
                Some(" is out of range"),
            ),
            InvalidLayout::SlotRepeated { physical } => text::one_number(
                "physical slot ",
                physical as u64,
                Some(" occurs more than once"),
            ),
            InvalidLayout::SidecarLengthOverflow => "sidecar length overflows u64".to_owned(),
            InvalidLayout::SidecarLength { actual, expected } => text::two_numbers(
                "sidecar length is ",
                actual,
                ", expected ",
                expected,
                None,
            ),
            InvalidLayout::SidecarHeader => {
                "sidecar magic, version, or reserved field is invalid".to_owned()
            },
            InvalidLayout::SidecarFields => {
                "sidecar structural fields do not match the index header".to_owned()
            },
            InvalidLayout::SidecarChecksum => "sidecar mapping checksum does not match".to_owned(),
            InvalidLayout::SidecarBinding => "sidecar binding digest does not match".to_owned(),
            InvalidLayout::ZeroFingerprint => {
                "binding digest has a zero fingerprint prefix".to_owned()
            },
            InvalidLayout::PathsNotDistinct => {
                "source, output, and sidecar paths must be distinct".to_owned()
            },
        }
    }
}

impl LayoutError {
    /// The text of the error, met with the index at `index_path`.
    pub open spec fn text(self, index_path: Seq<char>) -> Seq<char> {
        match self {
            LayoutError::Io { path, reason } => "I/O error for "@ + path@ + ": "@ + reason@,
            LayoutError::Invalid(fault) => "invalid graph-aware layout: "@ + fault.text(index_path),
            LayoutError::AlreadyExists(path) => "refusing to overwrite existing path "@ + path@,
        }
    }

    /// The text of the error, met with the index at `index_path`.
    pub fn message(&self, index_path: &str) -> (message: String)
        ensures
            message@ == self.text(index_path@),
    {
        match self {
            LayoutError::Io { path, reason } => {
                let mut message = "I/O error for ".to_owned();
                message.append(path.as_str());
                message.append(": ");
                message.append(reason.as_str());
                message
            },
            LayoutError::Invalid(fault) => {
                let mut message = "invalid graph-aware layout: ".to_owned();
                message.append(fault.message(index_path).as_str());
                message
            },
            LayoutError::AlreadyExists(path) => {
                let mut message = "refusing to overwrite existing path ".to_owned();
                message.append(path.as_str());
                message
            },
        }
    }
}

/// What a check that found `fault` returns.
pub open spec fn checked(fault: Option<InvalidLayout>) -> Result<(), LayoutError> {
    match fault {
        Some(fault) => Err(LayoutError::Invalid(fault)),
        None => Ok(()),
    }
}

/// A check succeeds exactly where there is no fault, and fails with the fault otherwise.
pub proof fn lemma_checked_reports_fault(fault: Option<InvalidLayout>)
    ensures
        checked(fault) is Ok <==> fault is None,
        fault is Some ==> checked(fault) == Err::<(), LayoutError>(LayoutError::Invalid(fault->0)),
{
}

} // verus!
