//! What a geometry kernel declares it supports, and how a persistent
//! topology reference resolves against evaluated candidates.

use vstd::prelude::*;

use crate::diagnostics::EdgeModifierOperation;

verus! {

/// Support level for selections whose edges meet at a vertex.
#[derive(Debug, Clone, Copy, PartialEq, Eq, Structural)]
pub enum SharedVertexSupport {
    Unsupported,
    ConvexPolyhedralSource,
    Supported,
}

#[derive(Debug, Clone, Copy, PartialEq, Eq, Structural)]
pub enum EdgeCountSupport {
    Unsupported,
    Single,
    Multiple,
}

#[derive(Debug, Clone, Copy, PartialEq, Eq, Structural)]
pub enum SourceFeatureScope {
    Single,
    Multiple,
}

#[derive(Debug, Clone, Copy, PartialEq, Eq, Structural)]
pub enum EdgeCurveSupport {
    LinearOnly,
    Any,
}

#[derive(Debug, Clone, Copy, PartialEq, Eq, Structural)]
pub enum SupportSurfaceSupport {
    PlanarOnly,
    Any,
}

#[derive(Debug, Clone, Copy, PartialEq, Eq, Structural)]
pub enum EdgeConvexitySupport {
    ConvexOnly,
    Any,
}

impl Default for SharedVertexSupport {
    fn default() -> (r: Self)
        ensures
            r == SharedVertexSupport::Unsupported,
    {
        SharedVertexSupport::Unsupported
    }
}

impl Default for EdgeCountSupport {
    fn default() -> (r: Self)
        ensures
            r == EdgeCountSupport::Unsupported,
    {
        EdgeCountSupport::Unsupported
    }
}

impl Default for SourceFeatureScope {
    fn default() -> (r: Self)
        ensures
            r == SourceFeatureScope::Single,
    {
        SourceFeatureScope::Single
    }
}

impl Default for EdgeCurveSupport {
    fn default() -> (r: Self)
        ensures
            r == EdgeCurveSupport::LinearOnly,
    {
        EdgeCurveSupport::LinearOnly
    }
}

impl Default for SupportSurfaceSupport {
    fn default() -> (r: Self)
        ensures
            r == SupportSurfaceSupport::PlanarOnly,
    {
        SupportSurfaceSupport::PlanarOnly
    }
}

impl Default for EdgeConvexitySupport {
    fn default() -> (r: Self)
        ensures
            r == EdgeConvexitySupport::ConvexOnly,
    {
        EdgeConvexitySupport::ConvexOnly
    }
}

/// Kernel-declared contract for one edge-modifier operation.
#[derive(Debug, Clone, Copy, PartialEq, Eq, Structural)]
pub struct EdgeModifierCapability {
    pub edge_count: EdgeCountSupport,
    pub source_scope: SourceFeatureScope,
    pub edge_curves: EdgeCurveSupport,
    pub support_surfaces: SupportSurfaceSupport,
    pub edge_convexity: EdgeConvexitySupport,
    pub shared_vertex_support: SharedVertexSupport,
}

impl EdgeModifierCapability {
    /// The most restrictive contract: nothing is supported.
    pub open spec fn closed() -> Self {
        EdgeModifierCapability {
            edge_count: EdgeCountSupport::Unsupported,
            source_scope: SourceFeatureScope::Single,
            edge_curves: EdgeCurveSupport::LinearOnly,
            support_surfaces: SupportSurfaceSupport::PlanarOnly,
            edge_convexity: EdgeConvexitySupport::ConvexOnly,
            shared_vertex_support: SharedVertexSupport::Unsupported,
        }
    }
}

impl Default for EdgeModifierCapability {
    fn default() -> (r: Self)
        ensures
            r == EdgeModifierCapability::closed(),
    {
        EdgeModifierCapability {
            edge_count: EdgeCountSupport::Unsupported,
            source_scope: SourceFeatureScope::Single,
            edge_curves: EdgeCurveSupport::LinearOnly,
            support_surfaces: SupportSurfaceSupport::PlanarOnly,
            edge_convexity: EdgeConvexitySupport::ConvexOnly,
            shared_vertex_support: SharedVertexSupport::Unsupported,
        }
    }
}

/// Kernel-neutral capabilities needed by application, UI, and AI consumers.
#[derive(Debug, Clone, Copy, PartialEq, Eq, Structural)]
pub struct CadKernelCapabilities {
    pub chamfer: EdgeModifierCapability,
    pub fillet: EdgeModifierCapability,
    /// Exact B-Rep intersection analysis with kernel-declared volume precision.
    pub interference_analysis: bool,
}

impl Default for CadKernelCapabilities {
    /// Closed by default: nothing is claimed.
    fn default() -> (r: Self)
        ensures
            r.chamfer == EdgeModifierCapability::closed(),
            r.fillet == EdgeModifierCapability::closed(),
            !r.interference_analysis,
    {
        CadKernelCapabilities {
            chamfer: EdgeModifierCapability::default(),
            fillet: EdgeModifierCapability::default(),
            interference_analysis: false,
        }
    }
}

impl CadKernelCapabilities {
    /// The contract declared for `operation`.
    pub fn edge_modifier(self, operation: EdgeModifierOperation) -> (c: EdgeModifierCapability)
        ensures
            c == (match operation {
                EdgeModifierOperation::Chamfer => self.chamfer,
                EdgeModifierOperation::Fillet => self.fillet,
            }),
    {
        match operation {
            EdgeModifierOperation::Chamfer => self.chamfer,
            EdgeModifierOperation::Fillet => self.fillet,
        }
    }
}

/// Method that established the exact intersection topology for one pair.
#[derive(Debug, Clone, Copy, PartialEq, Eq, Structural)]
pub enum InterferenceIntersectionMethod {
    BrepBoolean,
    NonCrossingContact,
    BoundaryClassifiedContainment,
}

/// Stable phase at which one candidate-pair analysis failed.
#[derive(Debug, Clone, Copy, PartialEq, Eq, Structural)]
pub enum InterferenceFailureStage {
    KernelOperation,
    ResultValidation,
    VolumeIntegration,
}

/// Stable reason code for one candidate-pair analysis failure.
#[derive(Debug, Clone, Copy, PartialEq, Eq, Structural)]
pub enum InterferenceFailureReason {
    KernelRejected,
    KernelPanic,
    InvalidResultTopology,
    EmptyMesh,
    NonFiniteVolume,
}

/// How a persistent topology reference resolved: to exactly one candidate,
/// to several, or to none.
pub enum TopologyResolution<'a, T> {
    Resolved(&'a T),
    Ambiguous(Vec<&'a T>),
    Lost,
}

/// Resolves a reference from its matching candidates: none is lost, one is
/// resolved, and two or more are all reported as ambiguous, in order.
pub fn resolve_unique<'a, T>(candidates: &'a [T]) -> (r: TopologyResolution<'a, T>)
    ensures
        candidates@.len() == 0 <==> r is Lost,
        candidates@.len() == 1 <==> r is Resolved,
        r matches TopologyResolution::Resolved(x) ==> *x == candidates@[0],
        r matches TopologyResolution::Ambiguous(v) ==> v@.len() == candidates@.len() && forall|i: int|
            0 <= i < v@.len() ==> *#[trigger] v@[i] == candidates@[i],
{
    if candidates.len() == 0 {
        return TopologyResolution::Lost;
    }
    if candidates.len() == 1 {
        return TopologyResolution::Resolved(&candidates[0]);
    }
    let mut all: Vec<&'a T> = Vec::new();
    let mut i: usize = 0;
    while i < candidates.len()
        invariant
            i <= candidates@.len(),
            all@.len() == i,
            forall|j: int| 0 <= j < i ==> *#[trigger] all@[j] == candidates@[j],
        decreases candidates@.len() - i,
    {
        all.push(&candidates[i]);
        i += 1;
    }
    TopologyResolution::Ambiguous(all)
}

} // verus!
