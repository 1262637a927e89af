//! Stable, kernel-neutral reason and stage codes for failed modeling operations.

use vstd::prelude::*;

verus! {

/// Stable phase at which one boolean evaluation failed.
#[derive(Debug, Clone, Copy, PartialEq, Eq, Structural)]
pub enum BooleanFailureStage {
    OperandResolution,
    OperandValidation,
    BroadPhase,
    KernelOperation,
    ResultValidation,
    TopologyHealing,
    TopologyNaming,
}

impl BooleanFailureStage {
    /// The snake-case wire code of this value.
    pub open spec fn code_text(self) -> Seq<char> {
        match self {
            Self::OperandResolution => "operand_resolution"@,
            Self::OperandValidation => "operand_validation"@,
            Self::BroadPhase => "broad_phase"@,
            Self::KernelOperation => "kernel_operation"@,
            Self::ResultValidation => "result_validation"@,
            Self::TopologyHealing => "topology_healing"@,
            Self::TopologyNaming => "topology_naming"@,
        }
    }

    pub fn code(self) -> (code: &'static str)
        ensures
            code@ == self.code_text(),
    {
        match self {
            Self::OperandResolution => "operand_resolution",
            Self::OperandValidation => "operand_validation",
            Self::BroadPhase => "broad_phase",
            Self::KernelOperation => "kernel_operation",
            Self::ResultValidation => "result_validation",
            Self::TopologyHealing => "topology_healing",
            Self::TopologyNaming => "topology_naming",
        }
    }
}

/// Stable reason code for one failed boolean evaluation.
#[derive(Debug, Clone, Copy, PartialEq, Eq, Structural)]
pub enum BooleanFailureReason {
    MissingOperand,
    InvalidOperandTopology,
    InvalidOperandGeometry,
    DisjointOperands,
    KernelRejected,
    KernelPanic,
    EmptyResult,
    InvalidResultTopology,
    HealingFailed,
    ResultEvaluationFailed,
    TopologyNamingFailed,
}

impl BooleanFailureReason {
    /// The snake-case wire code of this value.
    pub open spec fn code_text(self) -> Seq<char> {
        match self {
            Self::MissingOperand => "missing_operand"@,
            Self::InvalidOperandTopology => "invalid_operand_topology"@,
            Self::InvalidOperandGeometry => "invalid_operand_geometry"@,
            Self::DisjointOperands => "disjoint_operands"@,
            Self::KernelRejected => "kernel_rejected"@,
            Self::KernelPanic => "kernel_panic"@,
            Self::EmptyResult => "empty_result"@,
            Self::InvalidResultTopology => "invalid_result_topology"@,
            Self::HealingFailed => "healing_failed"@,
            Self::ResultEvaluationFailed => "result_evaluation_failed"@,
            Self::TopologyNamingFailed => "topology_naming_failed"@,
        }
    }

    pub fn code(self) -> (code: &'static str)
        ensures
            code@ == self.code_text(),
    {
        match self {
            Self::MissingOperand => "missing_operand",
            Self::InvalidOperandTopology => "invalid_operand_topology",
            Self::InvalidOperandGeometry => "invalid_operand_geometry",
            Self::DisjointOperands => "disjoint_operands",
            Self::KernelRejected => "kernel_rejected",
            Self::KernelPanic => "kernel_panic",
            Self::EmptyResult => "empty_result",
            Self::InvalidResultTopology => "invalid_result_topology",
            Self::HealingFailed => "healing_failed",
            Self::ResultEvaluationFailed => "result_evaluation_failed",
            Self::TopologyNamingFailed => "topology_naming_failed",
        }
    }
}

/// The class of edge treatment being evaluated.
#[derive(Debug, Clone, Copy, PartialEq, Eq, Structural)]
pub enum EdgeModifierOperation {
    Chamfer,
    Fillet,
}

impl EdgeModifierOperation {
    /// The snake-case wire code of this value.
    pub open spec fn code_text(self) -> Seq<char> {
        match self {
            Self::Chamfer => "chamfer"@,
            Self::Fillet => "fillet"@,
        }
    }

    pub fn code(self) -> (code: &'static str)
        ensures
            code@ == self.code_text(),
    {
        match self {
            Self::Chamfer => "chamfer",
            Self::Fillet => "fillet",
        }
    }
}

/// The dimensional input controlling an edge treatment.
#[derive(Debug, Clone, Copy, PartialEq, Eq, Structural)]
pub enum EdgeModifierParameter {
    Distance,
    Radius,
}

impl EdgeModifierParameter {
    /// The snake-case wire code of this value.
    pub open spec fn code_text(self) -> Seq<char> {
        match self {
            Self::Distance => "distance"@,
            Self::Radius => "radius"@,
        }
    }

    pub fn code(self) -> (code: &'static str)
        ensures
            code@ == self.code_text(),
    {
        match self {
            Self::Distance => "distance",
            Self::Radius => "radius",
        }
    }
}

/// Stable phase at which one edge treatment failed.
#[derive(Debug, Clone, Copy, PartialEq, Eq, Structural)]
pub enum EdgeModifierFailureStage {
    ReferenceResolution,
    GeometryValidation,
    Construction,
    ResultValidation,
    TopologyNaming,
}

impl EdgeModifierFailureStage {
    /// The snake-case wire code of this value.
    pub open spec fn code_text(self) -> Seq<char> {
        match self {
            Self::ReferenceResolution => "reference_resolution"@,
            Self::GeometryValidation => "geometry_validation"@,
            Self::Construction => "construction"@,
            Self::ResultValidation => "result_validation"@,
            Self::TopologyNaming => "topology_naming"@,
        }
    }

    pub fn code(self) -> (code: &'static str)
        ensures
            code@ == self.code_text(),
    {
        match self {
            Self::ReferenceResolution => "reference_resolution",
            Self::GeometryValidation => "geometry_validation",
            Self::Construction => "construction",
            Self::ResultValidation => "result_validation",
            Self::TopologyNaming => "topology_naming",
        }
    }
}

/// Stable reason code for one failed edge treatment.
#[derive(Debug, Clone, Copy, PartialEq, Eq, Structural)]
pub enum EdgeModifierFailureReason {
    EmptyEdgeSet,
    MixedSourceFeatures,
    LostReference,
    AmbiguousReference,
    NonLinearEdge,
    NonPlanarSupport,
    NonConvexEdge,
    SharedVertexUnsupported,
    NonConvexSource,
    ParameterBelowTolerance,
    ParameterExceedsTopology,
    KernelRejected,
    KernelPanic,
    InvalidResultTopology,
    TopologyNamingFailed,
}

impl EdgeModifierFailureReason {
    /// The snake-case wire code of this value.
    pub open spec fn code_text(self) -> Seq<char> {
        match self {
            Self::EmptyEdgeSet => "empty_edge_set"@,
            Self::MixedSourceFeatures => "mixed_source_features"@,
            Self::LostReference => "lost_reference"@,
            Self::AmbiguousReference => "ambiguous_reference"@,
            Self::NonLinearEdge => "non_linear_edge"@,
            Self::NonPlanarSupport => "non_planar_support"@,
            Self::NonConvexEdge => "non_convex_edge"@,
            Self::SharedVertexUnsupported => "shared_vertex_unsupported"@,
            Self::NonConvexSource => "non_convex_source"@,
            Self::ParameterBelowTolerance => "parameter_below_tolerance"@,
            Self::ParameterExceedsTopology => "parameter_exceeds_topology"@,
            Self::KernelRejected => "kernel_rejected"@,
            Self::KernelPanic => "kernel_panic"@,
            Self::InvalidResultTopology => "invalid_result_topology"@,
            Self::TopologyNamingFailed => "topology_naming_failed"@,
        }
    }

    pub fn code(self) -> (code: &'static str)
        ensures
            code@ == self.code_text(),
    {
        match self {
            Self::EmptyEdgeSet => "empty_edge_set",
            Self::MixedSourceFeatures => "mixed_source_features",
            Self::LostReference => "lost_reference",
            Self::AmbiguousReference => "ambiguous_reference",
            Self::NonLinearEdge => "non_linear_edge",
            Self::NonPlanarSupport => "non_planar_support",
            Self::NonConvexEdge => "non_convex_edge",
            Self::SharedVertexUnsupported => "shared_vertex_unsupported",
            Self::NonConvexSource => "non_convex_source",
            Self::ParameterBelowTolerance => "parameter_below_tolerance",
            Self::ParameterExceedsTopology => "parameter_exceeds_topology",
            Self::KernelRejected => "kernel_rejected",
            Self::KernelPanic => "kernel_panic",
            Self::InvalidResultTopology => "invalid_result_topology",
            Self::TopologyNamingFailed => "topology_naming_failed",
        }
    }
}

/// Why a sketch edit failed atomically.
#[derive(Debug, Clone, Copy, PartialEq, Eq, Structural)]
pub enum SketchConstraintFailureReason {
    Conflict,
    NonConvergence,
}

impl SketchConstraintFailureReason {
    /// The snake-case wire code of this value.
    pub open spec fn code_text(self) -> Seq<char> {
        match self {
            Self::Conflict => "conflict"@,
            Self::NonConvergence => "non_convergence"@,
        }
    }

    pub fn code(self) -> (code: &'static str)
        ensures
            code@ == self.code_text(),
    {
        match self {
            Self::Conflict => "conflict",
            Self::NonConvergence => "non_convergence",
        }
    }
}

/// Whether bounded topology normalization or contact recovery ran during one boolean attempt.
#[derive(Debug, Clone, Copy, PartialEq, Eq, Structural)]
pub enum BooleanHealingStatus {
    NotAttempted,
    Applied,
    Failed,
}

} // verus!
