//! SemanticData - intermediate representation of code semantics.
//!
//! The language-agnostic contract between the adapters that read an index and the graph
//! builder: it describes what is in the code, not how the graph is built.
use vstd::hash_map::StringHashMap;
use vstd::hash_set::StringHashSet;
use vstd::prelude::*;

verus! {

/// Globally unique identifier of a symbol.
pub type SymbolId = String;

// ============================================================================
// Top-level container
// ============================================================================

/// Project-level semantic data
#[derive(Debug, Clone)]
pub struct SemanticData {
    /// Project root directory
    pub project_root: String,
    /// Semantic information for all documents (files)
    pub documents: Vec<DocumentSemantics>,
    /// External symbols (stdlib/third-party)
    pub external_symbols: Vec<SymbolDefinition>,
}

/// Semantic information for a single file
#[derive(Debug, Clone)]
pub struct DocumentSemantics {
    /// Relative path from project root
    pub relative_path: String,
    /// Programming language (e.g., "python", "rust", "java")
    pub language: String,
    /// Symbol definitions in this file
    pub definitions: Vec<SymbolDefinition>,
    /// Symbol references in this file
    pub references: Vec<SymbolReference>,
}

// ============================================================================
// Symbol definition
// ============================================================================

/// Symbol definition - unified representation of all definable entities
#[derive(Debug, Clone)]
pub struct SymbolDefinition {
    pub symbol_id: SymbolId,
    pub kind: SymbolKind,
    /// Short name (without path)
    pub name: String,
    /// Display name (may include a signature)
    pub display_name: String,
    pub location: SourceLocation,
    /// Source span for context size calculation (for functions, the whole body)
    pub span: SourceSpan,
    /// Enclosing scope (parent symbol)
    pub enclosing_symbol: Option<SymbolId>,
    /// Whether this is an external dependency
    pub is_external: bool,
    /// Documentation strings (for doc_score calculation)
    pub documentation: Vec<String>,
    /// Symbol-specific details (selected based on kind)
    pub details: SymbolDetails,
}

/// Symbol kind - language-agnostic classification
#[derive(Debug, Clone, Copy, PartialEq, Eq, Structural)]
pub enum SymbolKind {
    Function,
    Method,
    Constructor,
    /// Global/module-level variables
    Variable,
    /// Class/struct fields
    Field,
    Constant,
    Class,
    Interface,
    Struct,
    Enum,
    Trait,
    Protocol,
    TypeAlias,
    /// Function parameters
    Parameter,
    /// Generic parameters
    TypeParameter,
    Module,
    Namespace,
    Package,
    Unknown,
}

/// Symbol-specific details
#[derive(Debug, Clone)]
pub enum SymbolDetails {
    Function(FunctionDetails),
    Variable(VariableDetails),
    Type(TypeDetails),
    /// No details
    Empty,
}

impl SymbolDetails {
    pub fn as_function(&self) -> (r: Option<&FunctionDetails>)
        ensures
            match self {
                SymbolDetails::Function(f) => r == Some(f),
                _ => r is None,
            },
    {
        match self {
            SymbolDetails::Function(f) => Some(f),
            _ => None,
        }
    }

    pub fn as_variable(&self) -> (r: Option<&VariableDetails>)
        ensures
            match self {
                SymbolDetails::Variable(v) => r == Some(v),
                _ => r is None,
            },
    {
        match self {
            SymbolDetails::Variable(v) => Some(v),
            _ => None,
        }
    }

    pub fn as_type(&self) -> (r: Option<&TypeDetails>)
        ensures
            match self {
                SymbolDetails::Type(t) => r == Some(t),
                _ => r is None,
            },
    {
        match self {
            SymbolDetails::Type(t) => Some(t),
            _ => None,
        }
    }
}

/// Function details
#[derive(Debug, Clone)]
pub struct FunctionDetails {
    /// Parameters (in definition order)
    pub parameters: Vec<ParameterInfo>,
    /// Return types (symbol IDs of type definitions)
    pub return_types: Vec<SymbolId>,
    /// Exception types that may be thrown
    pub throws: Vec<SymbolId>,
    /// Generic type parameters
    pub type_params: Vec<TypeParamInfo>,
    pub modifiers: FunctionModifiers,
}

impl Default for FunctionDetails {
    fn default() -> (r: Self)
        ensures
            r.parameters@.len() == 0,
            r.return_types@.len() == 0,
            r.throws@.len() == 0,
            r.type_params@.len() == 0,
            r.modifiers == FunctionModifiers::spec_default(),
    {
        Self {
            parameters: Vec::new(),
            return_types: Vec::new(),
            throws: Vec::new(),
            type_params: Vec::new(),
            modifiers: FunctionModifiers::default(),
        }
    }
}

/// Parameter information
#[derive(Debug, Clone)]
pub struct ParameterInfo {
    pub name: String,
    /// Parameter type (symbol ID of type definition)
    pub param_type: Option<SymbolId>,
    pub has_default: bool,
    pub is_variadic: bool,
}

impl Default for ParameterInfo {
    fn default() -> (r: Self)
        ensures
            r.name@.len() == 0,
            r.param_type is None,
            !r.has_default,
            !r.is_variadic,
    {
        Self { name: String::new(), param_type: None, has_default: false, is_variadic: false }
    }
}

/// Type parameter (generic) information
#[derive(Debug, Clone)]
pub struct TypeParamInfo {
    pub name: String,
    /// Constraints (e.g., T: Clone)
    pub bounds: Vec<SymbolId>,
}

/// Function modifiers
#[derive(Debug, Clone, Copy, PartialEq, Eq, Structural)]
pub struct FunctionModifiers {
    pub is_async: bool,
    pub is_generator: bool,
    pub is_static: bool,
    pub is_abstract: bool,
    pub is_constructor: bool,
    pub visibility: Visibility,
}

impl FunctionModifiers {
    pub open spec fn spec_default() -> FunctionModifiers {
        FunctionModifiers {
            is_async: false,
            is_generator: false,
            is_static: false,
            is_abstract: false,
            is_constructor: false,
            visibility: Visibility::Unspecified,
        }
    }
}

impl Default for FunctionModifiers {
    fn default() -> (r: Self)
        ensures
            r == FunctionModifiers::spec_default(),
    {
        Self {
            is_async: false,
            is_generator: false,
            is_static: false,
            is_abstract: false,
            is_constructor: false,
            visibility: Visibility::Unspecified,
        }
    }
}

/// Variable details
#[derive(Debug, Clone)]
pub struct VariableDetails {
    /// Variable type (symbol ID of type definition)
    pub var_type: Option<SymbolId>,
    /// Mutability (the graph builder uses it for expansion)
    pub mutability: Mutability,
    pub variable_kind: VariableKind,
    pub visibility: Visibility,
}

impl Default for VariableDetails {
    fn default() -> (r: Self)
        ensures
            r.var_type is None,
            r.mutability == Mutability::Mutable,
            r.variable_kind == VariableKind::Global,
            r.visibility == Visibility::Unspecified,
    {
        Self {
            var_type: None,
            mutability: Mutability::Mutable,
            variable_kind: VariableKind::Global,
            visibility: Visibility::Unspecified,
        }
    }
}

/// Mutability
#[derive(Debug, Clone, Copy, PartialEq, Eq, Structural)]
pub enum Mutability {
    /// Compile-time constant
    Const,
    /// Runtime immutable (e.g., Java final, Rust let)
    Immutable,
    /// Mutable (triggers shared-state expansion)
    Mutable,
}

/// Variable kind
#[derive(Debug, Clone, Copy, PartialEq, Eq, Structural)]
pub enum VariableKind {
    /// Module-level global variables
    Global,
    /// Class/struct fields
    ClassField,
    /// Local variables
    Local,
}

/// Type details
#[derive(Debug, Clone)]
pub struct TypeDetails {
    pub kind: TypeKind,
    pub is_abstract: bool,
    pub is_final: bool,
    pub visibility: Visibility,
    /// Type parameters (generics)
    pub type_params: Vec<TypeParamInfo>,
    /// Member fields
    pub fields: Vec<FieldInfo>,
    /// Implementation/inheritance relationships (symbol IDs of other types)
    pub implements: Vec<SymbolId>,
    pub inherits: Vec<SymbolId>,
}

impl Default for TypeDetails {
    fn default() -> (r: Self)
        ensures
            r.kind == TypeKind::Class,
            !r.is_abstract,
            !r.is_final,
            r.visibility == Visibility::Unspecified,
            r.type_params@.len() == 0,
            r.fields@.len() == 0,
            r.implements@.len() == 0,
            r.inherits@.len() == 0,
    {
        Self {
            kind: TypeKind::Class,
            is_abstract: false,
            is_final: false,
            visibility: Visibility::Unspecified,
            type_params: Vec::new(),
            fields: Vec::new(),
            implements: Vec::new(),
            inherits: Vec::new(),
        }
    }
}

/// Type kind
#[derive(Debug, Clone, Copy, PartialEq, Eq, Structural)]
pub enum TypeKind {
    Class,
    Interface,
    Protocol,
    Struct,
    Enum,
    Trait,
    TypeAlias,
    /// Union types
    Union,
    /// Intersection types
    Intersection,
}

/// Field information (for class/struct fields)
#[derive(Debug, Clone)]
pub struct FieldInfo {
    pub name: String,
    pub field_type: Option<SymbolId>,
    pub mutability: Mutability,
    pub visibility: Visibility,
}

/// Visibility
#[derive(Debug, Clone, Copy, PartialEq, Eq, Structural)]
pub enum Visibility {
    Public,
    Private,
    Protected,
    Internal,
    Unspecified,
}

// ============================================================================
// Symbol reference
// ============================================================================

/// Symbol reference - "symbol used at location"
#[derive(Debug, Clone)]
pub struct SymbolReference {
    /// Referenced symbol
    pub target_symbol: SymbolId,
    /// Reference location
    pub location: SourceLocation,
    /// Context containing this reference (function/method that contains it)
    pub enclosing_symbol: SymbolId,
    /// Reference role
    pub role: ReferenceRole,
    /// Additional context (optional)
    pub context: Option<ReferenceContext>,
}

/// Reference role
#[derive(Debug, Clone, Copy, PartialEq, Eq, Structural)]
pub enum ReferenceRole {
    /// Function call
    Call,
    /// Variable read
    Read,
    /// Variable write
    Write,
    /// Type annotation (e.g., parameter type, return type)
    TypeAnnotation,
    /// Type instantiation (e.g., new Class())
    TypeInstantiation,
    /// Import statement
    Import,
    /// Attribute access (e.g., obj.field)
    AttributeAccess,
    /// Mentioned in documentation
    Documentation,
}

/// Reference context (optional additional information)
#[derive(Debug, Clone)]
pub enum ReferenceContext {
    /// Function call context
    CallArgument { arg_index: usize, param_name: Option<String> },
    /// Binary operator context
    BinaryOp { op: String },
}

// ============================================================================
// Common structures
// ============================================================================

/// Source location
#[derive(Debug, Clone)]
pub struct SourceLocation {
    /// Relative path
    pub file_path: String,
    /// 0-based
    pub line: u32,
    /// 0-based
    pub column: u32,
}

/// Source span
#[derive(Debug, Clone, Copy, PartialEq, Eq, Structural)]
pub struct SourceSpan {
    pub start_line: u32,
    pub start_column: u32,
    pub end_line: u32,
    pub end_column: u32,
}

// ============================================================================
// Models: the data as plain values
// ============================================================================

pub open spec fn opt_view(o: Option<String>) -> Option<Seq<char>> {
    match o {
        Some(s) => Some(s@),
        None => None,
    }
}

pub open spec fn views(v: Seq<String>) -> Seq<Seq<char>> {
    v.map_values(|s: String| s@)
}

/// A parameter: name, type, has a default, is variadic.
pub open spec fn parameter_info_model(p: ParameterInfo) -> (Seq<char>, Option<Seq<char>>, bool, bool) {
    (p.name@, opt_view(p.param_type), p.has_default, p.is_variadic)
}

pub open spec fn parameter_info_models(ps: Seq<ParameterInfo>) -> Seq<(Seq<char>, Option<Seq<char>>, bool, bool)> {
    ps.map_values(|p: ParameterInfo| parameter_info_model(p))
}

pub open spec fn type_param_models(ts: Seq<TypeParamInfo>) -> Seq<(Seq<char>, Seq<Seq<char>>)> {
    ts.map_values(|t: TypeParamInfo| (t.name@, views(t.bounds@)))
}

pub open spec fn field_models(fs: Seq<FieldInfo>) -> Seq<(Seq<char>, Option<Seq<char>>, Mutability, Visibility)> {
    fs.map_values(|f: FieldInfo| (f.name@, opt_view(f.field_type), f.mutability, f.visibility))
}

pub struct FunctionDetailsModel {
    pub parameters: Seq<(Seq<char>, Option<Seq<char>>, bool, bool)>,
    pub return_types: Seq<Seq<char>>,
    pub throws: Seq<Seq<char>>,
    pub type_params: Seq<(Seq<char>, Seq<Seq<char>>)>,
    pub modifiers: FunctionModifiers,
}

pub struct VariableDetailsModel {
    pub var_type: Option<Seq<char>>,
    pub mutability: Mutability,
    pub variable_kind: VariableKind,
    pub visibility: Visibility,
}

pub struct TypeDetailsModel {
    pub kind: TypeKind,
    pub is_abstract: bool,
    pub is_final: bool,
    pub visibility: Visibility,
    pub type_params: Seq<(Seq<char>, Seq<Seq<char>>)>,
    pub fields: Seq<(Seq<char>, Option<Seq<char>>, Mutability, Visibility)>,
    pub implements: Seq<Seq<char>>,
    pub inherits: Seq<Seq<char>>,
}

pub enum SymbolDetailsModel {
    Function(FunctionDetailsModel),
    Variable(VariableDetailsModel),
    Type(TypeDetailsModel),
    Empty,
}

pub struct SymbolDefinitionModel {
    pub symbol_id: Seq<char>,
    pub kind: SymbolKind,
    pub name: Seq<char>,
    pub display_name: Seq<char>,
    /// file path, line, column
    pub location: (Seq<char>, u32, u32),
    pub span: SourceSpan,
    pub enclosing_symbol: Option<Seq<char>>,
    pub is_external: bool,
    pub documentation: Seq<Seq<char>>,
    pub details: SymbolDetailsModel,
}

pub struct SymbolReferenceModel {
    pub target_symbol: Seq<char>,
    pub location: (Seq<char>, u32, u32),
    pub enclosing_symbol: Seq<char>,
    pub role: ReferenceRole,
    pub context: Option<ReferenceContextModel>,
}

/// The model of a reference context.
pub enum ReferenceContextModel {
    CallArgument { arg_index: usize, param_name: Option<Seq<char>> },
    BinaryOp { op: Seq<char> },
}

impl ReferenceContext {
    pub open spec fn model(self) -> ReferenceContextModel {
        match self {
            ReferenceContext::CallArgument { arg_index, param_name } => ReferenceContextModel::CallArgument {
                arg_index,
                param_name: opt_view(param_name),
            },
            ReferenceContext::BinaryOp { op } => ReferenceContextModel::BinaryOp { op: op@ },
        }
    }
}

impl FunctionDetails {
    pub open spec fn model(self) -> FunctionDetailsModel {
        FunctionDetailsModel {
            parameters: parameter_info_models(self.parameters@),
            return_types: views(self.return_types@),
            throws: views(self.throws@),
            type_params: type_param_models(self.type_params@),
            modifiers: self.modifiers,
        }
    }
}

impl VariableDetails {
    pub open spec fn model(self) -> VariableDetailsModel {
        VariableDetailsModel {
            var_type: opt_view(self.var_type),
            mutability: self.mutability,
            variable_kind: self.variable_kind,
            visibility: self.visibility,
        }
    }
}

impl TypeDetails {
    pub open spec fn model(self) -> TypeDetailsModel {
        TypeDetailsModel {
            kind: self.kind,
            is_abstract: self.is_abstract,
            is_final: self.is_final,
            visibility: self.visibility,
            type_params: type_param_models(self.type_params@),
            fields: field_models(self.fields@),
            implements: views(self.implements@),
            inherits: views(self.inherits@),
        }
    }
}

impl SymbolDetails {
    pub open spec fn model(self) -> SymbolDetailsModel {
        match self {
            SymbolDetails::Function(f) => SymbolDetailsModel::Function(f.model()),
            SymbolDetails::Variable(v) => SymbolDetailsModel::Variable(v.model()),
            SymbolDetails::Type(t) => SymbolDetailsModel::Type(t.model()),
            SymbolDetails::Empty => SymbolDetailsModel::Empty,
        }
    }
}

impl SymbolDefinition {
    pub open spec fn model(self) -> SymbolDefinitionModel {
        SymbolDefinitionModel {
            symbol_id: self.symbol_id@,
            kind: self.kind,
            name: self.name@,
            display_name: self.display_name@,
            location: (self.location.file_path@, self.location.line, self.location.column),
            span: self.span,
            enclosing_symbol: opt_view(self.enclosing_symbol),
            is_external: self.is_external,
            documentation: views(self.documentation@),
            details: self.details.model(),
        }
    }
}

impl SymbolReference {
    pub open spec fn model(self) -> SymbolReferenceModel {
        SymbolReferenceModel {
            target_symbol: self.target_symbol@,
            location: (self.location.file_path@, self.location.line, self.location.column),
            enclosing_symbol: self.enclosing_symbol@,
            role: self.role,
            context: match self.context {
                Some(c) => Some(c.model()),
                None => None,
            },
        }
    }
}

pub open spec fn definition_models(ds: Seq<SymbolDefinition>) -> Seq<SymbolDefinitionModel> {
    ds.map_values(|d: SymbolDefinition| d.model())
}

pub open spec fn reference_models(rs: Seq<SymbolReference>) -> Seq<SymbolReferenceModel> {
    rs.map_values(|r: SymbolReference| r.model())
}

// ============================================================================
// Helper functions
// ============================================================================

pub open spec fn spec_is_node_kind(kind: SymbolKind) -> bool {
    match kind {
        SymbolKind::Function | SymbolKind::Method | SymbolKind::Constructor | SymbolKind::Variable
        | SymbolKind::Field | SymbolKind::Constant => true,
        _ => false,
    }
}

pub open spec fn spec_is_type_kind(kind: SymbolKind) -> bool {
    match kind {
        SymbolKind::Class | SymbolKind::Interface | SymbolKind::Struct | SymbolKind::Enum
        | SymbolKind::Trait | SymbolKind::Protocol | SymbolKind::TypeAlias => true,
        _ => false,
    }
}

pub open spec fn spec_should_skip_kind(kind: SymbolKind) -> bool {
    match kind {
        SymbolKind::Parameter | SymbolKind::TypeParameter | SymbolKind::Unknown
        | SymbolKind::Module | SymbolKind::Namespace | SymbolKind::Package => true,
        _ => false,
    }
}

/// Check if a symbol kind typically becomes a graph node
pub fn is_node_kind(kind: &SymbolKind) -> (r: bool)
    ensures
        r == spec_is_node_kind(*kind),
{
    match kind {
        SymbolKind::Function | SymbolKind::Method | SymbolKind::Constructor | SymbolKind::Variable
        | SymbolKind::Field | SymbolKind::Constant => true,
        _ => false,
    }
}

/// Check if a symbol kind typically becomes a type registry entry
pub fn is_type_kind(kind: &SymbolKind) -> (r: bool)
    ensures
        r == spec_is_type_kind(*kind),
{
    match kind {
        SymbolKind::Class | SymbolKind::Interface | SymbolKind::Struct | SymbolKind::Enum
        | SymbolKind::Trait | SymbolKind::Protocol | SymbolKind::TypeAlias => true,
        _ => false,
    }
}

/// Check if a symbol kind should be skipped (not node, not type)
pub fn should_skip_kind(kind: &SymbolKind) -> (r: bool)
    ensures
        r == spec_should_skip_kind(*kind),
{
    match kind {
        SymbolKind::Parameter | SymbolKind::TypeParameter | SymbolKind::Unknown
        | SymbolKind::Module | SymbolKind::Namespace | SymbolKind::Package => true,
        _ => false,
    }
}

/// Every kind is exactly one of: node kind, type kind, skipped kind.
pub proof fn law_kind_partition(kind: SymbolKind)
    ensures
        spec_is_node_kind(kind) || spec_is_type_kind(kind) || spec_should_skip_kind(kind),
        !(spec_is_node_kind(kind) && spec_is_type_kind(kind)),
        !(spec_is_node_kind(kind) && spec_should_skip_kind(kind)),
        !(spec_is_type_kind(kind) && spec_should_skip_kind(kind)),
{
}

/// The definitions of the documents, document by document.
pub open spec fn doc_definitions(docs: Seq<DocumentSemantics>) -> Seq<SymbolDefinition>
    decreases docs.len(),
{
    if docs.len() == 0 {
        Seq::empty()
    } else {
        doc_definitions(docs.drop_last()) + docs.last().definitions@
    }
}

/// The references of the documents, document by document.
pub open spec fn doc_references(docs: Seq<DocumentSemantics>) -> Seq<SymbolReference>
    decreases docs.len(),
{
    if docs.len() == 0 {
        Seq::empty()
    } else {
        doc_references(docs.drop_last()) + docs.last().references@
    }
}

/// The definitions of a prefix of the documents grow document by document, and never
/// outnumber those of all the documents.
pub proof fn lemma_doc_definitions_prefix(docs: Seq<DocumentSemantics>, d: int)
    requires
        0 <= d < docs.len(),
    ensures
        doc_definitions(docs.take(d + 1)) == doc_definitions(docs.take(d)) + docs[d].definitions@,
        doc_definitions(docs.take(d + 1)).len() <= doc_definitions(docs).len(),
        doc_references(docs.take(d + 1)) == doc_references(docs.take(d)) + docs[d].references@,
        doc_references(docs.take(d + 1)).len() <= doc_references(docs).len(),
    decreases docs.len() - d,
{
    assert(docs.take(d + 1).drop_last() =~= docs.take(d));
    if d + 1 == docs.len() {
        assert(docs.take(d + 1) =~= docs);
    } else {
        lemma_doc_definitions_prefix(docs, d + 1);
        assert(docs.take(d + 2).drop_last() =~= docs.take(d + 1));
    }
}

/// All definitions: those of the documents, then the external symbols.
pub open spec fn all_definitions(data: SemanticData) -> Seq<SymbolDefinition> {
    doc_definitions(data.documents@) + data.external_symbols@
}

/// Get all symbol definitions from all documents, then the external symbols.
pub fn collect_all_definitions(data: &SemanticData) -> (r: Vec<&SymbolDefinition>)
    ensures
        r@.len() == all_definitions(*data).len(),
        forall|i: int| 0 <= i < r@.len() ==> *(#[trigger] r@[i]) == all_definitions(*data)[i],
{
    let mut result: Vec<&SymbolDefinition> = Vec::new();
    let mut d: usize = 0;
    while d < data.documents.len()
        invariant
            d <= data.documents@.len(),
            result@.len() == doc_definitions(data.documents@.take(d as int)).len(),
            forall|i: int|
                0 <= i < result@.len() ==> *(#[trigger] result@[i]) == doc_definitions(
                    data.documents@.take(d as int),
                )[i],
        decreases data.documents@.len() - d,
    {
        let doc = &data.documents[d];
        let ghost before = result@;
        let mut j: usize = 0;
        while j < doc.definitions.len()
            invariant
                j <= doc.definitions@.len(),
                result@.len() == before.len() + j,
                forall|i: int| 0 <= i < before.len() ==> #[trigger] result@[i] == before[i],
                forall|i: int| 0 <= i < j ==> *(#[trigger] result@[before.len() + i]) == doc.definitions@[i],
            decreases doc.definitions@.len() - j,
        {
            result.push(&doc.definitions[j]);
            j = j + 1;
        }
        proof {
            assert(data.documents@.take(d as int + 1).drop_last() =~= data.documents@.take(d as int));
            let flat = doc_definitions(data.documents@.take(d as int + 1));
            assert(flat == doc_definitions(data.documents@.take(d as int)) + doc.definitions@);
            assert forall|i: int| 0 <= i < result@.len() implies *(#[trigger] result@[i]) == flat[i] by {
                if i >= before.len() {
                    assert(*result@[before.len() + (i - before.len())] == doc.definitions@[i - before.len()]);
                }
            }
        }
        d = d + 1;
    }
    proof {
        assert(data.documents@.take(d as int) =~= data.documents@);
    }
    let ghost before = result@;
    let mut j: usize = 0;
    while j < data.external_symbols.len()
        invariant
            j <= data.external_symbols@.len(),
            result@.len() == before.len() + j,
            before.len() == doc_definitions(data.documents@).len(),
            forall|i: int| 0 <= i < before.len() ==> *(#[trigger] result@[i]) == doc_definitions(data.documents@)[i],
            forall|i: int| 0 <= i < j ==> *(#[trigger] result@[before.len() + i]) == data.external_symbols@[i],
        decreases data.external_symbols@.len() - j,
    {
        result.push(&data.external_symbols[j]);
        j = j + 1;
    }
    proof {
        let all = all_definitions(*data);
        assert forall|i: int| 0 <= i < result@.len() implies *(#[trigger] result@[i]) == all[i] by {
            if i >= before.len() {
                assert(*result@[before.len() + (i - before.len())] == data.external_symbols@[i - before.len()]);
            }
        }
    }
    result
}

/// The enclosing map built from `defs` in order: later definitions override earlier ones.
pub open spec fn enclosing_map_of(defs: Seq<SymbolDefinition>) -> Map<Seq<char>, Seq<char>>
    decreases defs.len(),
{
    if defs.len() == 0 {
        Map::empty()
    } else {
        let m = enclosing_map_of(defs.drop_last());
        match defs.last().enclosing_symbol {
            Some(parent) => m.insert(defs.last().symbol_id@, parent@),
            None => m,
        }
    }
}

/// The view of a map from symbols to symbols.
pub open spec fn symbol_map_view(m: Map<Seq<char>, String>) -> Map<Seq<char>, Seq<char>> {
    m.map_values(|v: String| v@)
}

/// Build a map from symbol_id to its enclosing symbol_id (document definitions only).
pub fn build_enclosing_map(data: &SemanticData) -> (r: StringHashMap<String>)
    ensures
        symbol_map_view(r@) == enclosing_map_of(doc_definitions(data.documents@)),
{
    let mut map: StringHashMap<String> = StringHashMap::new();
    let mut d: usize = 0;
    assert(symbol_map_view(map@) =~= Map::<Seq<char>, Seq<char>>::empty());
    while d < data.documents.len()
        invariant
            d <= data.documents@.len(),
            symbol_map_view(map@) == enclosing_map_of(doc_definitions(data.documents@.take(d as int))),
        decreases data.documents@.len() - d,
    {
        let doc = &data.documents[d];
        let ghost base = doc_definitions(data.documents@.take(d as int));
        let mut j: usize = 0;
        assert(base + doc.definitions@.take(0) =~= base);
        while j < doc.definitions.len()
            invariant
                j <= doc.definitions@.len(),
                symbol_map_view(map@) == enclosing_map_of(base + doc.definitions@.take(j as int)),
            decreases doc.definitions@.len() - j,
        {
            let def = &doc.definitions[j];
            proof {
                assert((base + doc.definitions@.take(j as int + 1)).drop_last() =~= base
                    + doc.definitions@.take(j as int));
                assert((base + doc.definitions@.take(j as int + 1)).last() == doc.definitions@[j as int]);
            }
            match &def.enclosing_symbol {
                Some(parent) => {
                    let ghost old_map = map@;
                    map.insert(def.symbol_id.clone(), parent.clone());
                    proof {
                        assert(symbol_map_view(map@) =~= symbol_map_view(old_map).insert(
                            def.symbol_id@,
                            parent@,
                        ));
                    }
                },
                None => {},
            }
            j = j + 1;
        }
        proof {
            assert(doc.definitions@.take(j as int) =~= doc.definitions@);
            assert(data.documents@.take(d as int + 1).drop_last() =~= data.documents@.take(d as int));
        }
        d = d + 1;
    }
    proof {
        assert(data.documents@.take(d as int) =~= data.documents@);
    }
    map
}

/// Resolution of `s` to the nearest ancestor (itself included) that is a node, following
/// the enclosing map at most `fuel` times: `None` when the fuel runs out first, otherwise
/// the answer (`Some(None)` when the chain ends without meeting a node).
pub open spec fn resolve_within(
    nodes: Set<Seq<char>>,
    map: Map<Seq<char>, Seq<char>>,
    s: Seq<char>,
    fuel: nat,
) -> Option<Option<Seq<char>>>
    decreases fuel,
{
    if nodes.contains(s) {
        Some(Some(s))
    } else if !map.contains_key(s) {
        Some(None)
    } else if fuel == 0 {
        None
    } else {
        resolve_within(nodes, map, map[s], (fuel - 1) as nat)
    }
}

/// Resolution of `s` stops (meets a node or the end of its enclosing chain).
pub open spec fn resolves(nodes: Set<Seq<char>>, map: Map<Seq<char>, Seq<char>>, s: Seq<char>) -> bool {
    exists|fuel: nat| #[trigger] resolve_within(nodes, map, s, fuel) is Some
}

/// The resolved answer, for a symbol whose resolution stops.
pub open spec fn resolved(nodes: Set<Seq<char>>, map: Map<Seq<char>, Seq<char>>, s: Seq<char>) -> Option<
    Seq<char>,
> {
    resolve_within(nodes, map, s, choose|fuel: nat| #[trigger] resolve_within(nodes, map, s, fuel) is Some)->0
}

/// The symbols of the definitions that become graph nodes.
pub open spec fn node_symbols_of(defs: Seq<SymbolDefinition>) -> Set<Seq<char>>
    decreases defs.len(),
{
    if defs.len() == 0 {
        Set::empty()
    } else if spec_is_node_kind(defs.last().kind) {
        node_symbols_of(defs.drop_last()).insert(defs.last().symbol_id@)
    } else {
        node_symbols_of(defs.drop_last())
    }
}

/// Whether resolving `symbol` (see `resolve_to_node_symbol`) stops within `fuel` steps.
pub fn resolves_within(
    symbol: &str,
    node_symbols: &StringHashSet,
    enclosing_map: &StringHashMap<String>,
    fuel: usize,
) -> (r: bool)
    ensures
        r == (resolve_within(node_symbols@, symbol_map_view(enclosing_map@), symbol@, fuel as nat) is Some),
{
    let ghost map = symbol_map_view(enclosing_map@);
    let mut cur: String = symbol.to_owned();
    let mut left: usize = fuel;
    loop
        invariant
            map == symbol_map_view(enclosing_map@),
            resolve_within(node_symbols@, map, symbol@, fuel as nat) == resolve_within(
                node_symbols@,
                map,
                cur@,
                left as nat,
            ),
        decreases left,
    {
        if node_symbols.contains(cur.as_str()) {
            return true;
        }
        match enclosing_map.get(cur.as_str()) {
            None => {
                return true;
            },
            Some(parent) => {
                if left == 0 {
                    return false;
                }
                cur = parent.clone();
                left = left - 1;
            },
        }
    }
}

/// Resolve a symbol to the nearest ancestor (itself included) that is a node.
/// Loops forever on a cycle of the enclosing map without a node, which `requires` rules out.
pub fn resolve_to_node_symbol(
    symbol: &str,
    node_symbols: &StringHashSet,
    enclosing_map: &StringHashMap<String>,
) -> (r: Option<SymbolId>)
    requires
        resolves(node_symbols@, symbol_map_view(enclosing_map@), symbol@),
    ensures
        match r {
            Some(x) => resolved(node_symbols@, symbol_map_view(enclosing_map@), symbol@) == Some(x@),
            None => resolved(node_symbols@, symbol_map_view(enclosing_map@), symbol@) is None,
        },
{
    let ghost nodes = node_symbols@;
    let ghost map = symbol_map_view(enclosing_map@);
    let ghost f0 = choose|fuel: nat| #[trigger] resolve_within(nodes, map, symbol@, fuel) is Some;
    let ghost answer = resolve_within(nodes, map, symbol@, f0);
    let mut current: String = symbol.to_string();
    let ghost mut fuel: nat = f0;
    loop
        invariant
            nodes == node_symbols@,
            map == symbol_map_view(enclosing_map@),
            answer is Some,
            answer->0 == resolved(nodes, map, symbol@),
            resolve_within(nodes, map, current@, fuel) == answer,
        decreases fuel,
    {
        if node_symbols.contains(current.as_str()) {
            return Some(current);
        }
        match enclosing_map.get(current.as_str()) {
            Some(parent) => {
                proof {
                    assert(map.contains_key(current@));
                    assert(map[current@] == parent@);
                    fuel = (fuel - 1) as nat;
                }
                current = parent.clone();
            },
            None => {
                return None;
            },
        }
    }
}

} // verus!
