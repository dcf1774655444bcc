use vstd::prelude::*;

verus! {

/// Edge kind: forward dependencies, and the reverse edges that dynamic expansion adds.
#[derive(Debug, Clone, Copy, PartialEq, Eq, Hash, Structural)]
pub enum EdgeKind {
    /// Function -> Function
    Call,
    /// Function -> Variable
    Read,
    /// Function -> Variable
    Write,
    /// Parent method -> Child method (interface implementation + concrete override)
    OverriddenBy,
    /// Decorated -> Decorator (understanding decorated requires decorator)
    Annotates,
    /// Reader of a mutable variable -> a writer of it (dynamic expansion)
    SharedStateWrite,
    /// Under-specified callee -> a caller of it (dynamic expansion)
    CallIn,
}

/// A forward dependency (not one of the reverse edges of dynamic expansion).
pub open spec fn is_forward_kind(k: EdgeKind) -> bool {
    k != EdgeKind::SharedStateWrite && k != EdgeKind::CallIn
}

/// Whether `k` is a forward dependency.
pub fn is_forward(k: &EdgeKind) -> (r: bool)
    ensures
        r == is_forward_kind(*k),
{
    match k {
        EdgeKind::SharedStateWrite | EdgeKind::CallIn => false,
        _ => true,
    }
}

} // verus!
