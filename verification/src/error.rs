//! Domain errors and invariant violations.

use vstd::prelude::*;

verus! {

/// A specific invariant violation detected during vault validation.
#[derive(Debug)]
pub struct Violation {
    pub description: String,
    pub details: ViolationDetails,
}

#[derive(Debug)]
pub enum ViolationDetails {
    DanglingEdgeUuid { edge_id: u128, dangling_uuid: u128, field: String },
    DanglingDocumentUuid { document_id: u128, dangling_uuid: u128, field: String },
    DocumentCycle { document_id: u128, block_id: u128 },
    InvalidEdgeEndpoint { edge_id: u128 },
    MissingFooterAnnotation { block_id: u128, referenced_name: String },
    MissingEdgeForRef { block_id: u128, referenced_name: String, target_id: u128 },
    DanglingFooterAnnotation { block_id: u128, name: String },
    DuplicateName { name: String, block_ids: Vec<u128> },
    NameContainsReservedCharacters { block_id: u128, name: String },
    HeadingInContent { block_id: u128, heading_text: String, heading_level: u8 },
    MissingMetadataField { block_id: u128, missing_field: String },
}

pub enum DetailsView {
    DanglingEdgeUuid { edge_id: u128, dangling_uuid: u128, field: Seq<char> },
    DanglingDocumentUuid { document_id: u128, dangling_uuid: u128, field: Seq<char> },
    DocumentCycle { document_id: u128, block_id: u128 },
    InvalidEdgeEndpoint { edge_id: u128 },
    MissingFooterAnnotation { block_id: u128, referenced_name: Seq<char> },
    MissingEdgeForRef { block_id: u128, referenced_name: Seq<char>, target_id: u128 },
    DanglingFooterAnnotation { block_id: u128, name: Seq<char> },
    DuplicateName { name: Seq<char>, block_ids: Seq<u128> },
    NameContainsReservedCharacters { block_id: u128, name: Seq<char> },
    HeadingInContent { block_id: u128, heading_text: Seq<char>, heading_level: u8 },
    MissingMetadataField { block_id: u128, missing_field: Seq<char> },
}

impl View for ViolationDetails {
    type V = DetailsView;

    open spec fn view(&self) -> DetailsView {
        match self {
            ViolationDetails::DanglingEdgeUuid { edge_id, dangling_uuid, field } =>
                DetailsView::DanglingEdgeUuid {
                edge_id: *edge_id,
                dangling_uuid: *dangling_uuid,
                field: field@,
            },
            ViolationDetails::DanglingDocumentUuid { document_id, dangling_uuid, field } =>
                DetailsView::DanglingDocumentUuid {
                document_id: *document_id,
                dangling_uuid: *dangling_uuid,
                field: field@,
            },
            ViolationDetails::DocumentCycle { document_id, block_id } =>
                DetailsView::DocumentCycle { document_id: *document_id, block_id: *block_id },
            ViolationDetails::InvalidEdgeEndpoint { edge_id } =>
                DetailsView::InvalidEdgeEndpoint { edge_id: *edge_id },
            ViolationDetails::MissingFooterAnnotation { block_id, referenced_name } =>
                DetailsView::MissingFooterAnnotation {
                block_id: *block_id,
                referenced_name: referenced_name@,
            },
            ViolationDetails::MissingEdgeForRef { block_id, referenced_name, target_id } =>
                DetailsView::MissingEdgeForRef {
                block_id: *block_id,
                referenced_name: referenced_name@,
                target_id: *target_id,
            },
            ViolationDetails::DanglingFooterAnnotation { block_id, name } =>
                DetailsView::DanglingFooterAnnotation { block_id: *block_id, name: name@ },
            ViolationDetails::DuplicateName { name, block_ids } => DetailsView::DuplicateName {
                name: name@,
                block_ids: block_ids@,
            },
            ViolationDetails::NameContainsReservedCharacters { block_id, name } =>
                DetailsView::NameContainsReservedCharacters { block_id: *block_id, name: name@ },
            ViolationDetails::HeadingInContent { block_id, heading_text, heading_level } =>
                DetailsView::HeadingInContent {
                block_id: *block_id,
                heading_text: heading_text@,
                heading_level: *heading_level,
            },
            ViolationDetails::MissingMetadataField { block_id, missing_field } =>
                DetailsView::MissingMetadataField {
                block_id: *block_id,
                missing_field: missing_field@,
            },
        }
    }
}

pub struct ViolationView {
    pub description: Seq<char>,
    pub details: DetailsView,
}

impl View for Violation {
    type V = ViolationView;

    open spec fn view(&self) -> ViolationView {
        ViolationView { description: self.description@, details: self.details@ }
    }
}

/// Domain errors for command execution.
#[derive(Debug)]
pub enum DomainError {
    BlockNotFound(u128),
    DocumentNotFound(u128),
    EdgeNotFound(u128),
    /// The name is already in use by another block.
    NameConflict(String, u128),
    /// The block has this many incoming edges; cascade deletion is needed.
    HasIncomingEdges(u128, usize),
    HeadingInContent,
    TargetNotInHeap(u128),
    SourceNotInHeap(u128),
    RootNotInHeap(u128),
    SectionNotFound(u128),
    SaveConflict(u64),
    ValidationFailed(String),
    Io(String),
    Parse(String),
    EmptyName,
    NameContainsReservedCharacters,
    NameContainsPercent,
    /// An artifact with this id already exists.
    DuplicateId(u128),
    /// The vault changed since the client read it.
    StaleState { expected: String, actual: String },
    /// The vault has drifted and has this many violations to repair first.
    RemediationRequired(usize),
    /// A section order that is not a permutation of the current sections.
    InvalidSectionOrder,
}

pub enum DomainFailure {
    BlockNotFound(u128),
    DocumentNotFound(u128),
    EdgeNotFound(u128),
    NameConflict(Seq<char>, u128),
    HasIncomingEdges(u128, usize),
    HeadingInContent,
    TargetNotInHeap(u128),
    SourceNotInHeap(u128),
    RootNotInHeap(u128),
    SectionNotFound(u128),
    SaveConflict(u64),
    ValidationFailed(Seq<char>),
    Io(Seq<char>),
    Parse(Seq<char>),
    EmptyName,
    NameContainsReservedCharacters,
    NameContainsPercent,
    DuplicateId(u128),
    StaleState { expected: Seq<char>, actual: Seq<char> },
    RemediationRequired(usize),
    InvalidSectionOrder,
}

impl View for DomainError {
    type V = DomainFailure;

    open spec fn view(&self) -> DomainFailure {
        match self {
            DomainError::BlockNotFound(i) => DomainFailure::BlockNotFound(*i),
            DomainError::DocumentNotFound(i) => DomainFailure::DocumentNotFound(*i),
            DomainError::EdgeNotFound(i) => DomainFailure::EdgeNotFound(*i),
            DomainError::NameConflict(n, i) => DomainFailure::NameConflict(n@, *i),
            DomainError::HasIncomingEdges(i, n) => DomainFailure::HasIncomingEdges(*i, *n),
            DomainError::HeadingInContent => DomainFailure::HeadingInContent,
            DomainError::TargetNotInHeap(i) => DomainFailure::TargetNotInHeap(*i),
            DomainError::SourceNotInHeap(i) => DomainFailure::SourceNotInHeap(*i),
            DomainError::RootNotInHeap(i) => DomainFailure::RootNotInHeap(*i),
            DomainError::SectionNotFound(i) => DomainFailure::SectionNotFound(*i),
            DomainError::SaveConflict(v) => DomainFailure::SaveConflict(*v),
            DomainError::ValidationFailed(s) => DomainFailure::ValidationFailed(s@),
            DomainError::Io(s) => DomainFailure::Io(s@),
            DomainError::Parse(s) => DomainFailure::Parse(s@),
            DomainError::EmptyName => DomainFailure::EmptyName,
            DomainError::NameContainsReservedCharacters =>
                DomainFailure::NameContainsReservedCharacters,
            DomainError::NameContainsPercent => DomainFailure::NameContainsPercent,
            DomainError::DuplicateId(i) => DomainFailure::DuplicateId(*i),
            DomainError::StaleState { expected, actual } => DomainFailure::StaleState {
                expected: expected@,
                actual: actual@,
            },
            DomainError::RemediationRequired(n) => DomainFailure::RemediationRequired(*n),
            DomainError::InvalidSectionOrder => DomainFailure::InvalidSectionOrder,
        }
    }
}

} // verus!
