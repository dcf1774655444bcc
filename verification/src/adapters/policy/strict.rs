//! Strict pruning policy.
use crate::domain::edge::EdgeKind;
use crate::domain::graph::ContextGraph;
use crate::domain::node::{DocScore, Node};
use crate::adapters::policy::academic::AcademicBaseline;
use crate::domain::policy::{spec_typed_and_documented, PruningDecision};
use crate::domain::type_registry::TypeInfo;
use vstd::prelude::*;

verus! {

/// Strict pruning policy.
/// Only trusts external code (and well-specified callees of call-in edges), with a high
/// documentation threshold.
pub struct StrictPolicy {
    doc_threshold: DocScore,
}

impl Default for StrictPolicy {
    fn default() -> (r: Self)
        ensures
            r.threshold() == DocScore::spec_new(4, 5),
    {
        // Higher threshold
        Self::new(DocScore::new(4, 5))
    }
}

impl StrictPolicy {
    /// The documentation threshold this policy was made with.
    pub closed spec fn threshold(self) -> DocScore {
        self.doc_threshold
    }

    pub fn new(doc_threshold: DocScore) -> (r: Self)
        ensures
            r.threshold() == doc_threshold,
    {
        Self { doc_threshold }
    }

    /// The documentation threshold.
    pub fn doc_threshold(&self) -> (r: DocScore)
        ensures
            r == self.threshold(),
    {
        self.doc_threshold
    }

    /// The decision of this policy for the edge `source --edge_kind--> target`.
    pub open spec fn spec_evaluate(self, source: Node, target: Node, edge_kind: EdgeKind) -> PruningDecision {
        match edge_kind {
            EdgeKind::SharedStateWrite => PruningDecision::Transparent,
            EdgeKind::CallIn => {
                if spec_typed_and_documented(source, self.threshold()) {
                    PruningDecision::Boundary
                } else {
                    PruningDecision::Transparent
                }
            },
            _ => {
                if target.spec_core().is_external {
                    PruningDecision::Boundary
                } else {
                    PruningDecision::Transparent
                }
            },
        }
    }

    /// Boundary vs Transparent for the edge `source --edge_kind--> target`.
    pub fn evaluate(
        &self,
        source: &Node,
        target: &Node,
        edge_kind: &EdgeKind,
        _graph: &ContextGraph,
    ) -> (r: PruningDecision)
        ensures
            r == self.spec_evaluate(*source, *target, *edge_kind),
    {
        // Dynamic expansion edges
        match edge_kind {
            EdgeKind::SharedStateWrite => {
                return PruningDecision::Transparent;
            },
            EdgeKind::CallIn => {
                // The source is still checked in strict mode
                if let Node::Function(f) = source {
                    if f.is_signature_complete() && f.core.doc_score.at_least(&self.doc_threshold) {
                        return PruningDecision::Boundary;
                    }
                }
                return PruningDecision::Transparent;
            },
            _ => {},
        }
        // External dependencies are always boundaries
        if target.node_core().is_external {
            return PruningDecision::Boundary;
        }
        // Regular variables are always transparent, and so are functions in strict mode
        PruningDecision::Transparent
    }
}

/// The strict policy never stops where the academic baseline with the same threshold goes
/// on: every Boundary of the strict policy is a Boundary of the academic baseline, so the
/// academic context is never the larger one edge by edge.
pub proof fn law_strict_boundary_is_academic_boundary(
    strict: StrictPolicy,
    academic: AcademicBaseline,
    source: Node,
    target: Node,
    edge_kind: EdgeKind,
    types: Map<Seq<char>, TypeInfo>,
)
    requires
        strict.threshold() == academic.threshold(),
        strict.spec_evaluate(source, target, edge_kind) == PruningDecision::Boundary,
    ensures
        academic.spec_evaluate(source, target, edge_kind, types) == PruningDecision::Boundary,
{
}

} // verus!
