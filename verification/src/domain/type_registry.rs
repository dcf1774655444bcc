use crate::domain::node::DocScore;
use vstd::hash_map::StringHashMap;
use vstd::prelude::*;

verus! {

/// Kind of a registered type definition
#[derive(Debug, Clone, Copy, PartialEq, Eq, Structural)]
pub enum TypeKind {
    Class,
    Interface,
    Struct,
    Enum,
    TypeAlias,
}

/// Attributes of a type definition
#[derive(Debug, Clone, Copy, PartialEq, Eq, Structural)]
pub struct TypeDefAttribute {
    pub type_kind: TypeKind,
    pub is_abstract: bool,
    pub type_param_count: u32,
}

/// A registered type: its attributes, size and documentation score
#[derive(Debug, Clone, Copy, PartialEq, Eq, Structural)]
pub struct TypeInfo {
    pub definition: TypeDefAttribute,
    pub context_size: u32,
    pub doc_score: DocScore,
}

/// Type definitions (not graph nodes), keyed by type symbol
pub struct TypeRegistry {
    types: StringHashMap<TypeInfo>,
}

impl View for TypeRegistry {
    type V = Map<Seq<char>, TypeInfo>;

    closed spec fn view(&self) -> Map<Seq<char>, TypeInfo> {
        self.types@
    }
}

impl TypeRegistry {
    pub fn new() -> (r: TypeRegistry)
        ensures
            r@ == Map::<Seq<char>, TypeInfo>::empty(),
    {
        TypeRegistry { types: StringHashMap::new() }
    }

    /// Register (or replace) the type `type_id`.
    pub fn register(&mut self, type_id: String, info: TypeInfo)
        ensures
            final(self)@ == old(self)@.insert(type_id@, info),
    {
        self.types.insert(type_id, info);
    }

    pub fn get(&self, type_id: &str) -> (r: Option<&TypeInfo>)
        ensures
            match r {
                Some(t) => self@.contains_key(type_id@) && *t == self@[type_id@],
                None => !self@.contains_key(type_id@),
            },
    {
        self.types.get(type_id)
    }

    pub fn contains(&self, type_id: &str) -> (r: bool)
        ensures
            r == self@.contains_key(type_id@),
    {
        self.types.contains_key(type_id)
    }

    pub fn len(&self) -> (r: usize)
        ensures
            r == self@.len(),
    {
        self.types.len()
    }
}

/// What `get` reads back of `register`: the information last registered under an id, with
/// every other id left as it was.
pub proof fn law_register_then_get(
    before: TypeRegistry,
    after: TypeRegistry,
    id: Seq<char>,
    info: TypeInfo,
    other: Seq<char>,
)
    requires
        after@ == before@.insert(id, info),
    ensures
        after@.contains_key(id) && after@[id] == info,
        other != id ==> after@.contains_key(other) == before@.contains_key(other),
        other != id && before@.contains_key(other) ==> after@[other] == before@[other],
{
}

} // verus!
