//! The parts of a SCIP index that the library reads.
use vstd::prelude::*;

verus! {

/// `SymbolRole::Definition`
pub const ROLE_DEFINITION: i32 = 1;

/// `SymbolRole::Import`
pub const ROLE_IMPORT: i32 = 2;

/// `SymbolRole::WriteAccess`
pub const ROLE_WRITE_ACCESS: i32 = 4;

/// `SymbolRole::ReadAccess`
pub const ROLE_READ_ACCESS: i32 = 8;

/// A SCIP index.
pub struct Index {
    pub metadata: Option<Metadata>,
    pub documents: Vec<Document>,
    pub external_symbols: Vec<SymbolInformation>,
}

/// Index metadata.
pub struct Metadata {
    /// URI of the project root
    pub project_root: String,
}

/// One indexed file.
pub struct Document {
    pub relative_path: String,
    pub language: String,
    pub occurrences: Vec<Occurrence>,
    pub symbols: Vec<SymbolInformation>,
}

/// A symbol occurring at a range.
pub struct Occurrence {
    /// `[start_line, start_char, end_char]` or `[start_line, start_char, end_line, end_char]`
    pub range: Vec<i32>,
    pub symbol: String,
    /// Bit set of symbol roles
    pub symbol_roles: i32,
    /// The range of the enclosing definition (e.g. a whole function body)
    pub enclosing_range: Vec<i32>,
}

/// Information about a symbol.
pub struct SymbolInformation {
    pub symbol: String,
    pub documentation: Vec<String>,
    pub relationships: Vec<Relationship>,
    /// SCIP symbol kind number
    pub kind: i32,
    pub display_name: String,
    pub signature_documentation: Option<SignatureDocumentation>,
    pub enclosing_symbol: String,
}

/// A relationship of a symbol to another.
pub struct Relationship {
    pub symbol: String,
    pub is_reference: bool,
    pub is_implementation: bool,
    pub is_type_definition: bool,
    pub is_definition: bool,
}

/// The signature of a symbol, as rendered text.
pub struct SignatureDocumentation {
    pub text: String,
}

} // verus!
