use crate::domain::edge::{is_forward_kind, EdgeKind};
use crate::domain::graph::ContextGraph;
use crate::domain::node::{DocScore, Mutability, Node};
use crate::domain::node::SourceSpan;
use crate::domain::type_registry::{TypeInfo, TypeRegistry};
use crate::text::{find_first, rfind_char_spec};
use vstd::prelude::*;

verus! {

/// Node type for documentation scoring
#[derive(Debug, Clone, Copy, PartialEq, Eq, Structural)]
pub enum NodeType {
    Function,
    Variable,
}

/// Pruning decision
#[derive(Debug, Clone, Copy, PartialEq, Eq, Structural)]
pub enum PruningDecision {
    /// Stop traversal here; node is a valid abstraction
    Boundary,
    /// Continue traversal through this node
    Transparent,
}

/// Pruning parameters for the CF solver.
/// Only the documentation threshold is configurable; "documentation completeness" is
/// the doc_score supplied by the documentation scorer.
#[derive(Debug, Clone, Copy, PartialEq, Eq, Structural)]
pub struct PruningParams {
    /// Documentation score threshold: doc_score >= this value is "sufficient documentation".
    pub doc_threshold: DocScore,
    /// If true (Academic): an internal function is a Boundary when its signature is complete
    /// and its doc_score >= doc_threshold.
    /// If false (Strict): only abstract factories (and the other structural rules) are Boundary.
    pub treat_typed_documented_function_as_boundary: bool,
}

impl Default for PruningParams {
    fn default() -> (r: Self)
        ensures
            r.doc_threshold == DocScore::spec_new(1, 2),
            r.treat_typed_documented_function_as_boundary,
    {
        Self::academic(DocScore::new(1, 2))
    }
}

impl PruningParams {
    /// Academic mode: internal function IS a boundary if typed + documented.
    pub fn academic(doc_threshold: DocScore) -> (r: Self)
        ensures
            r.doc_threshold == doc_threshold,
            r.treat_typed_documented_function_as_boundary,
    {
        Self { doc_threshold, treat_typed_documented_function_as_boundary: true }
    }

    /// Strict mode: internal function is TRANSPARENT unless a structural rule makes it a boundary.
    pub fn strict(doc_threshold: DocScore) -> (r: Self)
        ensures
            r.doc_threshold == doc_threshold,
            !r.treat_typed_documented_function_as_boundary,
    {
        Self { doc_threshold, treat_typed_documented_function_as_boundary: false }
    }
}

// -----------------------------------------------------------------------------
// Specification of the pruning rules
// -----------------------------------------------------------------------------

/// A function returns an abstract type: its signature is complete and some return type
/// is registered as abstract (the "abstract factory" pattern).
pub open spec fn spec_is_abstract_factory(node: Node, types: Map<Seq<char>, TypeInfo>) -> bool {
    match node {
        Node::Function(f) => {
            &&& f.return_types@.len() > 0
            &&& f.spec_signature_complete()
            &&& exists|i: int|
                0 <= i < f.return_types@.len() && #[trigger] types.contains_key(f.return_types@[i]@)
                    && types[f.return_types@[i]@].definition.is_abstract
        },
        Node::Variable(_) => false,
    }
}

/// Signature complete and documentation at least the threshold.
pub open spec fn spec_typed_and_documented(node: Node, threshold: DocScore) -> bool {
    match node {
        Node::Function(f) => f.spec_signature_complete() && f.core.doc_score.spec_at_least(
            threshold,
        ),
        Node::Variable(_) => false,
    }
}

/// Decision for following a forward edge of kind `edge_kind` into `target`.
pub open spec fn spec_evaluate(
    params: PruningParams,
    target: Node,
    edge_kind: EdgeKind,
    types: Map<Seq<char>, TypeInfo>,
) -> PruningDecision {
    if target.spec_core().is_external {
        PruningDecision::Boundary
    } else {
        match target {
            Node::Variable(v) => {
                if edge_kind == EdgeKind::Write {
                    PruningDecision::Transparent
                } else if v.mutability == Mutability::Mutable {
                    PruningDecision::Transparent
                } else {
                    PruningDecision::Boundary
                }
            },
            Node::Function(f) => {
                if f.is_di_wired && f.spec_signature_complete() {
                    PruningDecision::Boundary
                } else if f.is_interface_method {
                    if spec_typed_and_documented(target, params.doc_threshold) {
                        PruningDecision::Boundary
                    } else {
                        PruningDecision::Transparent
                    }
                } else if f.is_constructor && f.spec_signature_complete() {
                    PruningDecision::Boundary
                } else if spec_is_abstract_factory(target, types) {
                    PruningDecision::Boundary
                } else if params.treat_typed_documented_function_as_boundary
                    && spec_typed_and_documented(target, params.doc_threshold) {
                    PruningDecision::Boundary
                } else {
                    PruningDecision::Transparent
                }
            },
        }
    }
}

/// Decision for exploring the callers of `source` (call-in): the callers stay out of the
/// context (Boundary) exactly when `source` is a typed and documented function.
pub open spec fn spec_call_in_decision(params: PruningParams, source: Node) -> PruningDecision {
    if spec_typed_and_documented(source, params.doc_threshold) {
        PruningDecision::Boundary
    } else {
        PruningDecision::Transparent
    }
}

// -----------------------------------------------------------------------------
// Core algorithm (domain layer)
// -----------------------------------------------------------------------------

/// Returns true if the function returns an abstract type (Protocol/Interface/Trait),
/// i.e. the "abstract factory" pattern.
///
/// The abstract type's method signatures are sufficient documentation, so the return
/// type's own doc score is not consulted (and neither is `_doc_threshold`).
pub fn is_abstract_factory(
    function_node: &Node,
    type_registry: &TypeRegistry,
    _doc_threshold: DocScore,
) -> (r: bool)
    ensures
        r == spec_is_abstract_factory(*function_node, type_registry@),
{
    let f = match function_node {
        Node::Function(f) => f,
        Node::Variable(_) => {
            return false;
        },
    };
    if f.return_types.len() == 0 || !f.is_signature_complete() {
        return false;
    }
    let mut i: usize = 0;
    while i < f.return_types.len()
        invariant
            i <= f.return_types@.len(),
            *function_node == Node::Function(*f),
            f.return_types@.len() > 0,
            f.spec_signature_complete(),
            forall|j: int|
                0 <= j < i ==> !(#[trigger] type_registry@.contains_key(f.return_types@[j]@)
                    && type_registry@[f.return_types@[j]@].definition.is_abstract),
        decreases f.return_types@.len() - i,
    {
        match type_registry.get(f.return_types[i].as_str()) {
            Some(info) => {
                if info.definition.is_abstract {
                    assert(type_registry@.contains_key(f.return_types@[i as int]@));
                    return true;
                }
            },
            None => {},
        }
        i = i + 1;
    }
    false
}

/// Typed and documented: signature complete and doc score at least the threshold.
fn typed_and_documented(node: &Node, threshold: &DocScore) -> (r: bool)
    ensures
        r == spec_typed_and_documented(*node, *threshold),
{
    match node {
        Node::Function(f) => f.is_signature_complete() && f.core.doc_score.at_least(threshold),
        Node::Variable(_) => false,
    }
}

/// Decision for call-in exploration from `source`: Boundary iff `source` is a function with
/// a complete signature and sufficient documentation.
pub fn call_in_source_decision(params: &PruningParams, source: &Node) -> (r: PruningDecision)
    ensures
        r == spec_call_in_decision(*params, *source),
{
    if typed_and_documented(source, &params.doc_threshold) {
        PruningDecision::Boundary
    } else {
        PruningDecision::Transparent
    }
}

/// Decision for following the edge `source --edge_kind--> target`: a shared-state write is
/// always followed; a call-in edge stops exactly when its source (the callee) is a typed and
/// documented function; a forward edge is decided by `spec_evaluate`.
pub open spec fn spec_decision(
    params: PruningParams,
    source: Node,
    target: Node,
    edge_kind: EdgeKind,
    types: Map<Seq<char>, TypeInfo>,
) -> PruningDecision {
    match edge_kind {
        EdgeKind::SharedStateWrite => PruningDecision::Transparent,
        EdgeKind::CallIn => spec_call_in_decision(params, source),
        _ => spec_evaluate(params, target, edge_kind, types),
    }
}

/// Core pruning algorithm: evaluates Boundary vs Transparent for an edge.
/// Order: dynamic expansion edges -> external -> node dispatch; uses [PruningParams]
/// (doc_threshold + mode).
pub fn evaluate(
    params: &PruningParams,
    source: &Node,
    target: &Node,
    edge_kind: &EdgeKind,
    graph: &ContextGraph,
) -> (r: PruningDecision)
    ensures
        r == spec_decision(*params, *source, *target, *edge_kind, graph.types()),
{
    // Dynamic expansion edges
    match edge_kind {
        EdgeKind::SharedStateWrite => {
            // Always traverse to understand mutable state
            return PruningDecision::Transparent;
        },
        EdgeKind::CallIn => {
            return call_in_source_decision(params, source);
        },
        _ => {},
    }
    // External dependencies are always boundaries
    if target.node_core().is_external {
        return PruningDecision::Boundary;
    }
    match target {
        Node::Variable(v) => {
            // Write: writing to any variable is an action (transparent).
            // Read: immutable values are fully determined (boundary); mutable state expands.
            match edge_kind {
                EdgeKind::Write => PruningDecision::Transparent,
                _ => match v.mutability {
                    Mutability::Const | Mutability::Immutable => PruningDecision::Boundary,
                    Mutability::Mutable => PruningDecision::Transparent,
                },
            }
        },
        Node::Function(f) => {
            // DI-wired function with complete signature: boundary (no doc requirement)
            if f.is_di_wired && f.is_signature_complete() {
                return PruningDecision::Boundary;
            }
            // Interface/abstract methods: boundary if signature complete and documented
            if f.is_interface_method {
                if typed_and_documented(target, &params.doc_threshold) {
                    return PruningDecision::Boundary;
                }
                // Undocumented interface method is a leaky abstraction
                return PruningDecision::Transparent;
            }
            // Constructor with complete signature: boundary (no doc requirement)
            if f.is_constructor && f.is_signature_complete() {
                return PruningDecision::Boundary;
            }
            if is_abstract_factory(target, graph.registry(), params.doc_threshold) {
                return PruningDecision::Boundary;
            }
            if params.treat_typed_documented_function_as_boundary && typed_and_documented(
                target,
                &params.doc_threshold,
            ) {
                return PruningDecision::Boundary;
            }
            PruningDecision::Transparent
        },
    }
}

// -----------------------------------------------------------------------------
// Plug-in points: size function and documentation scorer
// -----------------------------------------------------------------------------

/// The view of an optional string.
pub open spec fn opt_str_view(o: Option<&str>) -> Option<Seq<char>> {
    match o {
        Some(s) => Some(s@),
        None => None,
    }
}

/// The views of a list of strings.
pub open spec fn strings_view(v: Seq<String>) -> Seq<Seq<char>> {
    v.map_values(|d: String| d@)
}

/// Size function trait - computes context size
pub trait SizeFunction {
    /// The spans of `source` on which the size is defined.
    spec fn accepts(&self, source: Seq<char>, span: SourceSpan) -> bool;

    /// The size of `span` in `source`, with the documentation texts `doc_texts` not counted.
    spec fn spec_compute(&self, source: Seq<char>, span: SourceSpan, doc_texts: Seq<Seq<char>>) -> u32;

    /// Whether `compute` is defined on `span` of `source`.
    fn accepts_span(&self, source: &str, span: &SourceSpan) -> (r: bool)
        ensures
            r == self.accepts(source@, *span),
    ;

    /// Compute the context size for a given source code span,
    /// potentially excluding documentation to avoid "punishing" well-documented code.
    fn compute(&self, source: &str, span: &SourceSpan, doc_texts: &[String]) -> (r: u32)
        requires
            self.accepts(source@, *span),
        ensures
            r == self.spec_compute(source@, *span, strings_view(doc_texts@)),
    ;
}

/// Node information for documentation scoring
pub struct NodeInfo {
    pub node_type: NodeType,
    pub name: String,
    /// Function signature
    pub signature: Option<String>,
    /// Programming language
    pub language: Option<String>,
}

/// A signature that the scorers can read: when it holds both brackets, its first `(` comes
/// before its first `)`.
pub open spec fn signature_readable(sig: Seq<char>) -> bool {
    (find_first(sig, seq!['(']) is Some && find_first(sig, seq![')']) is Some) ==> find_first(
        sig,
        seq!['('],
    )->0 < find_first(sig, seq![')'])->0
}

/// Whether the scorers and the SCIP adapter can read `sig` (see `signature_readable`).
pub fn is_signature_readable(sig: &str) -> (r: bool)
    ensures
        r == signature_readable(sig@),
{
    let chars = crate::text::str_chars(sig);
    let open = crate::text::find_char(chars.as_slice(), '(');
    let close = crate::text::find_char(chars.as_slice(), ')');
    match (open, close) {
        (Some(a), Some(b)) => a < b,
        _ => true,
    }
}

/// A signature whose first `(` comes before its last `)` when it has both.
pub open spec fn signature_readable_to_last(sig: Seq<char>) -> bool {
    (find_first(sig, seq!['(']) is Some && rfind_char_spec(sig, ')') is Some) ==> find_first(
        sig,
        seq!['('],
    )->0 < rfind_char_spec(sig, ')')->0
}

/// A signature that the scorers can read in its language: Rust signatures (`rs`, `rust`) are
/// cut from their first `(` to their first `)`, Python ones (`py`, `python`) from their first
/// `(` to their last `)`; those of other languages are not cut.
pub open spec fn signature_readable_in(language: Option<Seq<char>>, sig: Seq<char>) -> bool {
    match language {
        Some(l) => if l == seq!['r', 's'] || l == seq!['r', 'u', 's', 't'] {
            signature_readable(sig)
        } else if l == seq!['p', 'y'] || l == seq!['p', 'y', 't', 'h', 'o', 'n'] {
            signature_readable_to_last(sig)
        } else {
            true
        },
        None => true,
    }
}

/// What a scorer sees of a node: [`NodeInfo`] with its strings taken by their characters.
pub struct NodeInfoModel {
    pub node_type: NodeType,
    pub name: Seq<char>,
    pub signature: Option<Seq<char>>,
    pub language: Option<Seq<char>>,
}

pub open spec fn opt_string_view(o: Option<String>) -> Option<Seq<char>> {
    match o {
        Some(s) => Some(s@),
        None => None,
    }
}

impl NodeInfo {
    pub open spec fn model(&self) -> NodeInfoModel {
        NodeInfoModel {
            node_type: self.node_type,
            name: self.name@,
            signature: opt_string_view(self.signature),
            language: opt_string_view(self.language),
        }
    }
}

impl NodeInfoModel {
    pub open spec fn spec_wf(self) -> bool {
        match self.signature {
            Some(sig) => signature_readable_in(self.language, sig),
            None => true,
        }
    }
}

/// Documentation scorer trait - evaluates documentation quality
pub trait DocumentationScorer {
    /// The score of `doc` for the node described by `info`.
    spec fn spec_score(&self, info: NodeInfoModel, doc: Option<Seq<char>>) -> DocScore;

    /// Evaluate documentation quality, a score in [0, 1]:
    /// 0 for no or meaningless documentation, 1 for complete, clear documentation.
    fn score(&self, node_info: &NodeInfo, doc_text: Option<&str>) -> (r: DocScore)
        requires
            node_info.model().spec_wf(),
        ensures
            r == self.spec_score(node_info.model(), opt_str_view(doc_text)),
            r.spec_is_unit(),
    ;
}

/// Strict mode never makes a Boundary that academic mode (same threshold) would not:
/// every forward edge cut under strict pruning is also cut under academic pruning.
pub proof fn law_strict_boundary_implies_academic(
    threshold: DocScore,
    target: Node,
    edge_kind: EdgeKind,
    types: Map<Seq<char>, TypeInfo>,
)
    ensures
        spec_evaluate(PruningParams { doc_threshold: threshold, treat_typed_documented_function_as_boundary: false }, target, edge_kind, types)
            == PruningDecision::Boundary ==> spec_evaluate(
            PruningParams { doc_threshold: threshold, treat_typed_documented_function_as_boundary: true },
            target,
            edge_kind,
            types,
        ) == PruningDecision::Boundary,
{
}

/// External targets stop every forward edge, whatever the mode and threshold.
pub proof fn law_external_is_boundary(
    params: PruningParams,
    target: Node,
    edge_kind: EdgeKind,
    types: Map<Seq<char>, TypeInfo>,
)
    requires
        target.spec_core().is_external,
    ensures
        spec_evaluate(params, target, edge_kind, types) == PruningDecision::Boundary,
{
}

/// A write into an internal variable never stops the traversal.
pub proof fn law_write_to_variable_is_transparent(
    params: PruningParams,
    target: Node,
    types: Map<Seq<char>, TypeInfo>,
)
    requires
        !target.spec_core().is_external,
        target is Variable,
    ensures
        spec_evaluate(params, target, EdgeKind::Write, types) == PruningDecision::Transparent,
{
}

proof fn lemma_all_typed_count(params: Seq<crate::domain::node::Parameter>)
    requires
        forall|i: int| 0 <= i < params.len() ==> (#[trigger] params[i]).param_type is Some,
    ensures
        crate::domain::node::count_typed(params) == params.len(),
    decreases params.len(),
{
    if params.len() > 0 {
        let d = params.drop_last();
        assert forall|i: int| 0 <= i < d.len() implies (#[trigger] d[i]).param_type is Some by {
            assert(d[i] == params[i]);
        }
        lemma_all_typed_count(d);
        assert(params[params.len() - 1] == params.last());
    }
}

/// A constructor whose every parameter is typed and which has a return type is a boundary
/// for every forward edge into it, in both modes and at every threshold, whatever its
/// documentation (unless it is an external, interface or DI-wired function, which have rules
/// of their own that come first).
pub proof fn law_typed_constructor_is_boundary(
    params: PruningParams,
    source: Node,
    target: Node,
    edge_kind: EdgeKind,
    types: Map<Seq<char>, TypeInfo>,
)
    requires
        is_forward_kind(edge_kind),
        !target.spec_core().is_external,
        target matches Node::Function(f) && f.is_constructor && !f.is_interface_method
            && f.return_types@.len() > 0
            && forall|i: int| 0 <= i < f.parameters@.len() ==> (#[trigger] f.parameters@[i]).param_type is Some,
    ensures
        spec_decision(params, source, target, edge_kind, types) == PruningDecision::Boundary,
{
    if let Node::Function(f) = target {
        lemma_all_typed_count(f.parameters@);
    }
}

/// A DI-wired function whose every parameter is typed and which has a return type is a
/// boundary for every forward edge into it, whatever its documentation and the mode.
pub proof fn law_typed_di_wired_function_is_boundary(
    params: PruningParams,
    source: Node,
    target: Node,
    edge_kind: EdgeKind,
    types: Map<Seq<char>, TypeInfo>,
)
    requires
        is_forward_kind(edge_kind),
        target matches Node::Function(f) && f.is_di_wired && f.return_types@.len() > 0
            && forall|i: int| 0 <= i < f.parameters@.len() ==> (#[trigger] f.parameters@[i]).param_type is Some,
    ensures
        spec_decision(params, source, target, edge_kind, types) == PruningDecision::Boundary,
{
    if let Node::Function(f) = target {
        lemma_all_typed_count(f.parameters@);
    }
}

/// An internal interface method that is not DI-wired is a boundary exactly when all its
/// parameters are typed, it has a return type and its documentation reaches the threshold;
/// otherwise it is a leaky abstraction and the traversal goes through it, in both modes.
pub proof fn law_interface_method_needs_types_and_docs(
    params: PruningParams,
    source: Node,
    target: Node,
    edge_kind: EdgeKind,
    types: Map<Seq<char>, TypeInfo>,
)
    requires
        is_forward_kind(edge_kind),
        !target.spec_core().is_external,
        target matches Node::Function(f) && f.is_interface_method && !f.is_di_wired,
    ensures
        (spec_decision(params, source, target, edge_kind, types) == PruningDecision::Boundary) <==> (
        target matches Node::Function(f) && f.return_types@.len() > 0 && (forall|i: int|
            0 <= i < f.parameters@.len() ==> (#[trigger] f.parameters@[i]).param_type is Some)
            && f.core.doc_score.spec_at_least(params.doc_threshold)),
{
    if let Node::Function(f) = target {
        if forall|i: int| 0 <= i < f.parameters@.len() ==> (#[trigger] f.parameters@[i]).param_type is Some {
            lemma_all_typed_count(f.parameters@);
        } else if crate::domain::node::count_typed(f.parameters@) == f.parameters@.len() {
            lemma_count_typed_all(f.parameters@);
        }
    }
}

proof fn lemma_count_typed_all(params: Seq<crate::domain::node::Parameter>)
    requires
        crate::domain::node::count_typed(params) == params.len(),
    ensures
        forall|i: int| 0 <= i < params.len() ==> (#[trigger] params[i]).param_type is Some,
    decreases params.len(),
{
    lemma_count_typed_le(params);
    if params.len() > 0 {
        let d = params.drop_last();
        lemma_count_typed_le(d);
        lemma_count_typed_all(d);
        assert forall|i: int| 0 <= i < params.len() implies (#[trigger] params[i]).param_type is Some by {
            if i < d.len() {
                assert(d[i] == params[i]);
            } else {
                assert(params[params.len() - 1] == params.last());
            }
        }
    }
}

proof fn lemma_count_typed_le(params: Seq<crate::domain::node::Parameter>)
    ensures
        crate::domain::node::count_typed(params) <= params.len(),
    decreases params.len(),
{
    if params.len() > 0 {
        lemma_count_typed_le(params.drop_last());
    }
}

/// Reading an internal variable stops the traversal exactly when the variable is immutable
/// or constant: its value is then fully determined. Reading mutable state goes on.
pub proof fn law_read_stops_at_immutable_variables(
    params: PruningParams,
    source: Node,
    target: Node,
    types: Map<Seq<char>, TypeInfo>,
)
    requires
        !target.spec_core().is_external,
        target is Variable,
    ensures
        (spec_decision(params, source, target, EdgeKind::Read, types) == PruningDecision::Boundary) <==> (
        target matches Node::Variable(v) && v.mutability != Mutability::Mutable),
{
}

/// Shared-state write edges never stop the traversal, and a call-in edge stops it exactly
/// when its callee (the edge's source) is a function with every parameter typed, a return
/// type and documentation reaching the threshold; neither depends on the target.
pub proof fn law_dynamic_edges_depend_on_source_only(
    params: PruningParams,
    source: Node,
    target: Node,
    target2: Node,
    types: Map<Seq<char>, TypeInfo>,
)
    ensures
        spec_decision(params, source, target, EdgeKind::SharedStateWrite, types) == PruningDecision::Transparent,
        spec_decision(params, source, target, EdgeKind::CallIn, types) == spec_decision(
            params,
            source,
            target2,
            EdgeKind::CallIn,
            types,
        ),
        (spec_decision(params, source, target, EdgeKind::CallIn, types) == PruningDecision::Boundary) <==> (
        source matches Node::Function(f) && f.return_types@.len() > 0 && (forall|i: int|
            0 <= i < f.parameters@.len() ==> (#[trigger] f.parameters@[i]).param_type is Some)
            && f.core.doc_score.spec_at_least(params.doc_threshold)),
{
    if let Node::Function(f) = source {
        if forall|i: int| 0 <= i < f.parameters@.len() ==> (#[trigger] f.parameters@[i]).param_type is Some {
            lemma_all_typed_count(f.parameters@);
        } else if crate::domain::node::count_typed(f.parameters@) == f.parameters@.len() {
            lemma_count_typed_all(f.parameters@);
        }
    }
}

} // verus!
