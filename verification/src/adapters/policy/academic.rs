//! Academic baseline pruning policy.
use crate::domain::edge::EdgeKind;
use crate::domain::graph::ContextGraph;
use crate::domain::node::{DocScore, Node};
use crate::domain::policy::{spec_typed_and_documented, PruningDecision};
use crate::domain::type_registry::TypeInfo;
use vstd::prelude::*;

verus! {

/// Academic baseline pruning policy.
/// Uses type completeness plus a documentation presence check.
pub struct AcademicBaseline {
    doc_threshold: DocScore,
}

impl Default for AcademicBaseline {
    fn default() -> (r: Self)
        ensures
            r.threshold() == DocScore::spec_new(1, 2),
    {
        Self::new(DocScore::new(1, 2))
    }
}

impl AcademicBaseline {
    /// The documentation threshold this policy was made with.
    pub closed spec fn threshold(self) -> DocScore {
        self.doc_threshold
    }

    pub fn new(doc_threshold: DocScore) -> (r: Self)
        ensures
            r.threshold() == doc_threshold,
    {
        Self { doc_threshold }
    }

    /// The documentation threshold.
    pub fn doc_threshold(&self) -> (r: DocScore)
        ensures
            r == self.threshold(),
    {
        self.doc_threshold
    }

    /// An "abstract factory": a function whose return type is registered as an abstract type
    /// (Protocol/Interface/Trait) documented at least to the threshold.
    pub open spec fn spec_is_abstract_factory(
        self,
        node: Node,
        types: Map<Seq<char>, TypeInfo>,
    ) -> bool {
        match node {
            Node::Function(f) => {
                &&& f.return_types@.len() > 0
                &&& types.contains_key(f.return_types@[0]@)
                &&& types[f.return_types@[0]@].definition.is_abstract
                &&& types[f.return_types@[0]@].doc_score.spec_at_least(self.threshold())
            },
            Node::Variable(_) => false,
        }
    }

    /// The decision of this policy for the edge `source --edge_kind--> target`.
    pub open spec fn spec_evaluate(
        self,
        source: Node,
        target: Node,
        edge_kind: EdgeKind,
        types: Map<Seq<char>, TypeInfo>,
    ) -> PruningDecision {
        match edge_kind {
            EdgeKind::SharedStateWrite => PruningDecision::Transparent,
            EdgeKind::CallIn => {
                if spec_typed_and_documented(source, self.threshold()) {
                    PruningDecision::Boundary
                } else {
                    PruningDecision::Transparent
                }
            },
            _ => {
                if target.spec_core().is_external {
                    PruningDecision::Boundary
                } else {
                    match target {
                        Node::Variable(_) => PruningDecision::Transparent,
                        Node::Function(_) => {
                            if self.spec_is_abstract_factory(target, types)
                                || spec_typed_and_documented(target, self.threshold()) {
                                PruningDecision::Boundary
                            } else {
                                PruningDecision::Transparent
                            }
                        },
                    }
                }
            },
        }
    }

    /// Whether `function_node` is an abstract factory: its return type is an abstract type
    /// with sufficient documentation, so the interface it hands out is what matters, not
    /// the concrete implementation behind it.
    fn is_abstract_factory(&self, function_node: &Node, graph: &ContextGraph) -> (r: bool)
        ensures
            r == self.spec_is_abstract_factory(*function_node, graph.types()),
    {
        if let Node::Function(f) = function_node {
            let return_types = f.return_type_ids();
            if return_types.len() > 0 {
                if let Some(type_info) = graph.registry().get(return_types[0].as_str()) {
                    return type_info.definition.is_abstract && type_info.doc_score.at_least(
                        &self.doc_threshold,
                    );
                }
            }
        }
        false
    }

    /// Boundary vs Transparent for the edge `source --edge_kind--> target`.
    pub fn evaluate(
        &self,
        source: &Node,
        target: &Node,
        edge_kind: &EdgeKind,
        graph: &ContextGraph,
    ) -> (r: PruningDecision)
        ensures
            r == self.spec_evaluate(*source, *target, *edge_kind, graph.types()),
    {
        // Dynamic expansion edges
        match edge_kind {
            EdgeKind::SharedStateWrite => {
                // Shared-state write edges always traverse (no boundary stops them)
                return PruningDecision::Transparent;
            },
            EdgeKind::CallIn => {
                // Call-in edges traverse only when the source lacks a complete specification
                if let Node::Function(f) = source {
                    if f.is_signature_complete() && f.core.doc_score.at_least(&self.doc_threshold) {
                        return PruningDecision::Boundary;
                    }
                }
                return PruningDecision::Transparent;
            },
            _ => {},
        }
        // External dependencies are always boundaries
        if target.node_core().is_external {
            return PruningDecision::Boundary;
        }
        match target {
            // Regular variables are always transparent
            Node::Variable(_) => PruningDecision::Transparent,
            Node::Function(f) => {
                // An abstract factory is a boundary: the interface it returns is what matters
                if self.is_abstract_factory(target, graph) {
                    return PruningDecision::Boundary;
                }
                // Function boundary: signature complete and well documented
                if f.is_signature_complete() && f.core.doc_score.at_least(&self.doc_threshold) {
                    PruningDecision::Boundary
                } else {
                    PruningDecision::Transparent
                }
            },
        }
    }
}

} // verus!
