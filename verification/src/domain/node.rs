use vstd::prelude::*;

verus! {

/// Unique identifier for a node in the graph
pub type NodeId = u32;

/// Scope identifier (module/namespace)
pub type ScopeId = String;

/// Documentation quality score, an exact rational `numerator / denominator` (in [0, 1] for the
/// scores the scorers produce).
#[derive(Debug, Clone, Copy, PartialEq, Eq, Structural)]
pub struct DocScore {
    pub numerator: u128,
    pub denominator: u128,
}

/// `a / b >= c / d` as rationals, cross-multiplied (a zero denominator counts as infinity).
pub open spec fn ratio_at_least(a: int, b: int, c: int, d: int) -> bool {
    a * d >= c * b
}

/// Splitting both rationals into whole part and remainder decides the comparison.
proof fn lemma_ratio_split(a: int, b: int, c: int, d: int)
    requires
        a >= 0,
        c >= 0,
        b > 0,
        d > 0,
    ensures
        a / b > c / d ==> ratio_at_least(a, b, c, d),
        a / b < c / d ==> !ratio_at_least(a, b, c, d),
        a / b == c / d ==> (ratio_at_least(a, b, c, d) <==> ratio_at_least(
            a % b,
            b,
            c % d,
            d,
        )),
{
    let q1 = a / b;
    let r1 = a % b;
    let q2 = c / d;
    let r2 = c % d;
    assert(a == q1 * b + r1 && 0 <= r1 < b) by (nonlinear_arith)
        requires
            b > 0,
            q1 == a / b,
            r1 == a % b,
    ;
    assert(c == q2 * d + r2 && 0 <= r2 < d) by (nonlinear_arith)
        requires
            d > 0,
            q2 == c / d,
            r2 == c % d,
    ;
    assert(a * d - c * b == (q1 - q2) * (b * d) + (r1 * d - r2 * b)) by (nonlinear_arith)
        requires
            a == q1 * b + r1,
            c == q2 * d + r2,
    ;
    assert(r1 * d - r2 * b < b * d && r1 * d - r2 * b > -(b * d)) by (nonlinear_arith)
        requires
            0 <= r1 < b,
            0 <= r2 < d,
    ;
    if q1 > q2 {
        assert((q1 - q2) * (b * d) >= b * d) by (nonlinear_arith)
            requires
                q1 - q2 >= 1,
                b * d > 0,
        ;
    } else if q1 < q2 {
        assert((q1 - q2) * (b * d) <= -(b * d)) by (nonlinear_arith)
            requires
                q1 - q2 <= -1,
                b * d > 0,
        ;
    } else {
        assert((q1 - q2) * (b * d) == 0) by (nonlinear_arith)
            requires
                q1 == q2,
        ;
        assert(a * d - c * b == r1 * d - r2 * b);
    }
}

/// `a / b >= c / d` by comparing whole parts, then the remainders (Euclid's algorithm), so
/// that no product can overflow.
fn ratio_at_least_exec(a: u128, b: u128, c: u128, d: u128) -> (r: bool)
    ensures
        r == ratio_at_least(a as int, b as int, c as int, d as int),
    decreases b + d,
{
    if b == 0 {
        assert(a * d >= c * 0) by (nonlinear_arith)
            requires
                a >= 0,
                d >= 0,
        ;
        return true;
    }
    if d == 0 {
        assert(a * 0 >= c * b <==> c == 0) by (nonlinear_arith)
            requires
                b > 0,
                c >= 0,
        ;
        return c == 0;
    }
    proof {
        lemma_ratio_split(a as int, b as int, c as int, d as int);
    }
    let q1 = a / b;
    let q2 = c / d;
    if q1 != q2 {
        return q1 > q2;
    }
    let r1 = a % b;
    let r2 = c % d;
    if r2 == 0 {
        assert(r1 * d >= 0 * b) by (nonlinear_arith)
            requires
                r1 >= 0,
                d > 0,
        ;
        return true;
    }
    if r1 == 0 {
        assert(!(0 * d >= r2 * b)) by (nonlinear_arith)
            requires
                r2 > 0,
                b > 0,
        ;
        return false;
    }
    assert(ratio_at_least(r1 as int, b as int, r2 as int, d as int) == ratio_at_least(
        d as int,
        r2 as int,
        b as int,
        r1 as int,
    )) by (nonlinear_arith);
    ratio_at_least_exec(d, r2, b, r1)
}

impl DocScore {
    /// `self >= other` as rationals.
    pub open spec fn spec_at_least(self, other: DocScore) -> bool {
        ratio_at_least(
            self.numerator as int,
            self.denominator as int,
            other.numerator as int,
            other.denominator as int,
        )
    }

    pub open spec fn spec_new(numerator: u128, denominator: u128) -> DocScore {
        DocScore { numerator, denominator }
    }

    /// A score in [0, 1]: a positive denominator not below the numerator.
    pub open spec fn spec_is_unit(self) -> bool {
        0 < self.denominator && self.numerator <= self.denominator
    }

    pub fn new(numerator: u128, denominator: u128) -> (r: DocScore)
        ensures
            r.numerator == numerator,
            r.denominator == denominator,
    {
        DocScore { numerator, denominator }
    }

    /// The score 0.
    pub fn zero() -> (r: DocScore)
        ensures
            r.numerator == 0,
            r.denominator == 1,
    {
        DocScore { numerator: 0, denominator: 1 }
    }

    /// The score 1.
    pub fn one() -> (r: DocScore)
        ensures
            r.numerator == 1,
            r.denominator == 1,
    {
        DocScore { numerator: 1, denominator: 1 }
    }

    /// Whether `self >= other` as rationals.
    pub fn at_least(&self, other: &DocScore) -> (r: bool)
        ensures
            r == self.spec_at_least(*other),
    {
        ratio_at_least_exec(self.numerator, self.denominator, other.numerator, other.denominator)
    }
}

/// Source code span
#[derive(Debug, Clone, Copy, PartialEq, Eq, Structural)]
pub struct SourceSpan {
    pub start_line: u32,
    pub start_column: u32,
    pub end_line: u32,
    pub end_column: u32,
}

/// Shared core attributes for all nodes
#[derive(Debug)]
pub struct NodeCore {
    pub id: NodeId,
    pub name: String,
    pub scope: Option<ScopeId>,
    /// Abstract context size (computed by SizeFunction)
    pub context_size: u32,
    pub span: SourceSpan,
    /// Documentation quality score [0, 1]
    pub doc_score: DocScore,
    pub is_external: bool,
    /// Path to source file (relative to project root)
    pub file_path: String,
}

impl NodeCore {
    pub fn new(
        id: NodeId,
        name: String,
        scope: Option<ScopeId>,
        context_size: u32,
        span: SourceSpan,
        doc_score: DocScore,
        is_external: bool,
        file_path: String,
    ) -> (r: NodeCore)
        ensures
            r == (NodeCore { id, name, scope, context_size, span, doc_score, is_external, file_path }),
    {
        NodeCore { id, name, scope, context_size, span, doc_score, is_external, file_path }
    }
}

/// Visibility level
#[derive(Debug, Clone, Copy, PartialEq, Eq, Structural)]
pub enum Visibility {
    Public,
    Private,
    Protected,
    Internal,
}

/// Function parameter
#[derive(Debug)]
pub struct Parameter {
    pub name: String,
    /// Type ID (symbol) of the parameter type, stored in TypeRegistry
    pub param_type: Option<String>,
}

/// Function node
#[derive(Debug)]
pub struct FunctionNode {
    pub core: NodeCore,
    pub is_async: bool,
    pub is_generator: bool,
    pub visibility: Visibility,
    /// Signature: type references are TypeIds (symbols) into the TypeRegistry
    pub parameters: Vec<Parameter>,
    /// TypeId (symbol) of return types
    pub return_types: Vec<String>,
    /// True if defined in an Interface/Protocol/Trait/Abstract class (signature only)
    pub is_interface_method: bool,
    pub is_constructor: bool,
    /// Wired by a dependency-injection container
    pub is_di_wired: bool,
}

/// Number of parameters in `params` that carry a type annotation.
pub open spec fn count_typed(params: Seq<Parameter>) -> nat
    decreases params.len(),
{
    if params.len() == 0 {
        0
    } else {
        count_typed(params.drop_last()) + if params.last().param_type is Some {
            1nat
        } else {
            0nat
        }
    }
}

impl FunctionNode {
    /// All parameters typed and at least one return type.
    pub open spec fn spec_signature_complete(&self) -> bool {
        &&& count_typed(self.parameters@) == self.parameters@.len()
        &&& self.return_types@.len() > 0
    }

    /// Count parameters with type annotations
    pub fn typed_param_count(&self) -> (r: usize)
        ensures
            r == count_typed(self.parameters@),
    {
        let mut n: usize = 0;
        let mut i: usize = 0;
        while i < self.parameters.len()
            invariant
                i <= self.parameters@.len(),
                n == count_typed(self.parameters@.take(i as int)),
                n <= i,
            decreases self.parameters@.len() - i,
        {
            assert(self.parameters@.take(i as int + 1).drop_last() =~= self.parameters@.take(
                i as int,
            ));
            if self.parameters[i].param_type.is_some() {
                n = n + 1;
            }
            i = i + 1;
        }
        assert(self.parameters@.take(i as int) =~= self.parameters@);
        n
    }

    /// Total parameter count
    pub fn param_count(&self) -> (r: usize)
        ensures
            r == self.parameters@.len(),
    {
        self.parameters.len()
    }

    /// Has return type annotation
    pub fn has_return_type(&self) -> (r: bool)
        ensures
            r == (self.return_types@.len() > 0),
    {
        self.return_types.len() > 0
    }

    /// Check if function signature is complete (all params typed + has return type)
    pub fn is_signature_complete(&self) -> (r: bool)
        ensures
            r == self.spec_signature_complete(),
    {
        self.typed_param_count() == self.param_count() && self.has_return_type()
    }

    /// Get return type IDs
    pub fn return_type_ids(&self) -> (r: &[String])
        ensures
            r@ == self.return_types@,
    {
        self.return_types.as_slice()
    }
}

/// Mutability
#[derive(Debug, Clone, Copy, PartialEq, Eq, Structural)]
pub enum Mutability {
    /// Compile-time constant
    Const,
    /// Runtime immutable
    Immutable,
    /// Mutable (expansion trigger)
    Mutable,
}

/// Variable kind
#[derive(Debug, Clone, Copy, PartialEq, Eq, Structural)]
pub enum VariableKind {
    /// Module-level
    Global,
    /// Class/struct field
    ClassField,
    /// Local variable
    Local,
}

/// Variable node
#[derive(Debug)]
pub struct VariableNode {
    pub core: NodeCore,
    /// Type ID of this variable (stored in TypeRegistry)
    pub var_type: Option<String>,
    /// Mutability (critical for expansion)
    pub mutability: Mutability,
    /// Scope kind
    pub variable_kind: VariableKind,
}

/// Polymorphic node type
#[derive(Debug)]
pub enum Node {
    Function(FunctionNode),
    Variable(VariableNode),
}

impl Node {
    pub open spec fn spec_core(&self) -> NodeCore {
        match self {
            Node::Function(f) => f.core,
            Node::Variable(v) => v.core,
        }
    }

    /// This node with its core replaced by `c`.
    pub open spec fn with_core(self, c: NodeCore) -> Node {
        match self {
            Node::Function(f) => Node::Function(FunctionNode { core: c, ..f }),
            Node::Variable(v) => Node::Variable(VariableNode { core: c, ..v }),
        }
    }

    pub fn node_core(&self) -> (r: &NodeCore)
        ensures
            *r == self.spec_core(),
    {
        match self {
            Node::Function(f) => &f.core,
            Node::Variable(v) => &v.core,
        }
    }

    pub fn core_mut(&mut self) -> (r: &mut NodeCore)
        ensures
            *r == old(self).spec_core(),
            *final(self) == old(self).with_core(*final(r)),
    {
        match self {
            Node::Function(f) => &mut f.core,
            Node::Variable(v) => &mut v.core,
        }
    }
}

/// A node as plain values: its strings and lists taken by their contents.
pub enum NodeModel {
    Function {
        core: NodeCore,
        is_async: bool,
        is_generator: bool,
        visibility: Visibility,
        parameters: Seq<(Seq<char>, Option<Seq<char>>)>,
        return_types: Seq<Seq<char>>,
        is_interface_method: bool,
        is_constructor: bool,
        is_di_wired: bool,
    },
    Variable {
        core: NodeCore,
        var_type: Option<Seq<char>>,
        mutability: Mutability,
        variable_kind: VariableKind,
    },
}

pub open spec fn opt_seq(o: Option<String>) -> Option<Seq<char>> {
    match o {
        Some(s) => Some(s@),
        None => None,
    }
}

pub open spec fn parameter_model(p: Parameter) -> (Seq<char>, Option<Seq<char>>) {
    (p.name@, opt_seq(p.param_type))
}

pub open spec fn parameter_models(ps: Seq<Parameter>) -> Seq<(Seq<char>, Option<Seq<char>>)> {
    ps.map_values(|p: Parameter| parameter_model(p))
}

impl Node {
    pub open spec fn model(self) -> NodeModel {
        match self {
            Node::Function(f) => NodeModel::Function {
                core: f.core,
                is_async: f.is_async,
                is_generator: f.is_generator,
                visibility: f.visibility,
                parameters: parameter_models(f.parameters@),
                return_types: f.return_types@.map_values(|t: String| t@),
                is_interface_method: f.is_interface_method,
                is_constructor: f.is_constructor,
                is_di_wired: f.is_di_wired,
            },
            Node::Variable(v) => NodeModel::Variable {
                core: v.core,
                var_type: opt_seq(v.var_type),
                mutability: v.mutability,
                variable_kind: v.variable_kind,
            },
        }
    }
}

pub open spec fn node_models(ns: Seq<Node>) -> Seq<NodeModel> {
    ns.map_values(|n: Node| n.model())
}

} // verus!
