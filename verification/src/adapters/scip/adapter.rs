//! SCIP adapter: converts a SCIP index to SemanticData.
use crate::adapters::scip::parser::{parse_range, spec_parse_range};
use crate::domain::policy::signature_readable;
use crate::domain::semantic::{
    definition_models, opt_view, parameter_info_models, reference_models, views, DocumentSemantics,
    FunctionDetails, FunctionDetailsModel, FunctionModifiers, Mutability, ParameterInfo,
    ReferenceRole, SemanticData, SourceLocation, SourceSpan, SymbolDefinition,
    SymbolDefinitionModel, SymbolDetails, SymbolDetailsModel, SymbolKind, SymbolReference,
    SymbolReferenceModel, TypeDetails, TypeDetailsModel, TypeKind, VariableDetails,
    VariableDetailsModel, VariableKind, Visibility,
};
use crate::scip::{
    Document, Index, Occurrence, Relationship, SymbolInformation, ROLE_DEFINITION, ROLE_IMPORT,
    ROLE_READ_ACCESS, ROLE_WRITE_ACCESS,
};
use crate::text::{
    deep_chars, find, find_first, has_substring, is_prefix, is_suffix, slice_chars, split_char,
    split_char_spec, str_chars, str_contains, str_ends_with, str_equals, str_starts_with,
    string_from_chars, trim, trim_end_matches_char, trim_end_matches_spec, trim_spec,
};
use vstd::prelude::*;

verus! {

// -----------------------------------------------------------------------------
// Kinds and roles
// -----------------------------------------------------------------------------

/// SCIP kind numbers: Class 7, Constant 8, Constructor 9, Enum 11, Field 15, Function 17,
/// Interface 21, Method 26, Module 29, Namespace 30, Package 35, Parameter 37, Protocol 42,
/// Struct 49, Trait 53, TypeAlias 55, Variable 61.
pub open spec fn spec_convert_scip_kind(kind: i32) -> SymbolKind {
    if kind == 17 {
        SymbolKind::Function
    } else if kind == 26 {
        SymbolKind::Method
    } else if kind == 9 {
        SymbolKind::Constructor
    } else if kind == 7 {
        SymbolKind::Class
    } else if kind == 21 {
        SymbolKind::Interface
    } else if kind == 11 {
        SymbolKind::Enum
    } else if kind == 49 {
        SymbolKind::Struct
    } else if kind == 53 {
        SymbolKind::Trait
    } else if kind == 61 {
        SymbolKind::Variable
    } else if kind == 15 {
        SymbolKind::Field
    } else if kind == 8 {
        SymbolKind::Constant
    } else if kind == 37 {
        SymbolKind::Parameter
    } else if kind == 30 {
        SymbolKind::Namespace
    } else if kind == 29 {
        SymbolKind::Module
    } else if kind == 35 {
        SymbolKind::Package
    } else if kind == 42 {
        SymbolKind::Protocol
    } else if kind == 55 {
        SymbolKind::TypeAlias
    } else {
        SymbolKind::Unknown
    }
}

/// Convert a SCIP symbol kind number to a SymbolKind
pub fn convert_scip_kind(kind: i32) -> (r: SymbolKind)
    ensures
        r == spec_convert_scip_kind(kind),
{
    match kind {
        17 => SymbolKind::Function,
        26 => SymbolKind::Method,
        9 => SymbolKind::Constructor,
        7 => SymbolKind::Class,
        21 => SymbolKind::Interface,
        11 => SymbolKind::Enum,
        49 => SymbolKind::Struct,
        53 => SymbolKind::Trait,
        61 => SymbolKind::Variable,
        15 => SymbolKind::Field,
        8 => SymbolKind::Constant,
        37 => SymbolKind::Parameter,
        30 => SymbolKind::Namespace,
        29 => SymbolKind::Module,
        35 => SymbolKind::Package,
        42 => SymbolKind::Protocol,
        55 => SymbolKind::TypeAlias,
        _ => SymbolKind::Unknown,
    }
}

/// The kind read from the descriptor suffix that ends a SCIP symbol: `().` method (in a
/// type) or function; `)` or `]` parameter; `#` type; `:` meta (module); `!` macro; `/`
/// namespace; `.` term (field in a type, else variable).
pub open spec fn spec_infer_kind_from_symbol(s: Seq<char>) -> SymbolKind {
    if is_suffix(")."@, s) {
        if has_substring(s, "#"@) {
            SymbolKind::Method
        } else {
            SymbolKind::Function
        }
    } else if is_suffix(")"@, s) {
        SymbolKind::Parameter
    } else if is_suffix("]"@, s) {
        SymbolKind::Parameter
    } else if is_suffix("#"@, s) {
        SymbolKind::Class
    } else if is_suffix(":"@, s) {
        SymbolKind::Module
    } else if is_suffix("!"@, s) {
        SymbolKind::Unknown
    } else if is_suffix("/"@, s) {
        SymbolKind::Namespace
    } else if is_suffix("."@, s) {
        if has_substring(s, "#"@) {
            SymbolKind::Field
        } else {
            SymbolKind::Variable
        }
    } else {
        SymbolKind::Unknown
    }
}

/// Infer SymbolKind from the SCIP symbol string format
pub fn infer_kind_from_symbol(symbol: &str) -> (r: SymbolKind)
    ensures
        r == spec_infer_kind_from_symbol(symbol@),
{
    let s = str_chars(symbol);
    let s = s.as_slice();
    if str_ends_with(s, ").") {
        if str_contains(s, "#") {
            return SymbolKind::Method;
        } else {
            return SymbolKind::Function;
        }
    }
    if str_ends_with(s, ")") {
        return SymbolKind::Parameter;
    }
    if str_ends_with(s, "]") {
        return SymbolKind::Parameter;
    }
    if str_ends_with(s, "#") {
        return SymbolKind::Class;
    }
    if str_ends_with(s, ":") {
        return SymbolKind::Module;
    }
    if str_ends_with(s, "!") {
        return SymbolKind::Unknown;
    }
    if str_ends_with(s, "/") {
        return SymbolKind::Namespace;
    }
    if str_ends_with(s, ".") {
        if str_contains(s, "#") {
            return SymbolKind::Field;
        } else {
            return SymbolKind::Variable;
        }
    }
    SymbolKind::Unknown
}

pub open spec fn spec_convert_scip_role(role: i32) -> ReferenceRole {
    if role & ROLE_WRITE_ACCESS != 0 {
        ReferenceRole::Write
    } else if role & ROLE_READ_ACCESS != 0 {
        ReferenceRole::Read
    } else if role & ROLE_IMPORT != 0 {
        ReferenceRole::Import
    } else {
        ReferenceRole::Call
    }
}

/// Convert a SCIP symbol role bit set to a ReferenceRole: write, read or import access,
/// otherwise a call.
pub fn convert_scip_role(role: i32, _symbol: &str) -> (r: ReferenceRole)
    ensures
        r == spec_convert_scip_role(role),
{
    if role & ROLE_WRITE_ACCESS != 0 {
        ReferenceRole::Write
    } else if role & ROLE_READ_ACCESS != 0 {
        ReferenceRole::Read
    } else if role & ROLE_IMPORT != 0 {
        ReferenceRole::Import
    } else {
        ReferenceRole::Call
    }
}

/// A SCIP occurrence is a write exactly when its role bits include write access (bit 4),
/// whatever else is set; it is a read exactly when it has read access (bit 8) and no write
/// access; an import (bit 2) or a call only when it has neither access bit.
pub proof fn law_scip_role_follows_access_bits(role: i32)
    ensures
        (spec_convert_scip_role(role) == ReferenceRole::Write) <==> (role & 4i32 != 0),
        (spec_convert_scip_role(role) == ReferenceRole::Read) <==> (role & 4i32 == 0 && role & 8i32 != 0),
        (spec_convert_scip_role(role) == ReferenceRole::Import) <==> (role & 4i32 == 0 && role & 8i32 == 0
            && role & 2i32 != 0),
        (spec_convert_scip_role(role) == ReferenceRole::Call) <==> (role & 14i32 == 0),
{
    assert((role & 14i32 == 0) <==> (role & 4i32 == 0 && role & 8i32 == 0 && role & 2i32 == 0)) by (bit_vector);
}

/// Infer visibility from the symbol string (no convention is applied: unspecified).
pub fn infer_visibility(_symbol: &str) -> (r: Visibility)
    ensures
        r == Visibility::Unspecified,
{
    Visibility::Unspecified
}

// -----------------------------------------------------------------------------
// Signatures
// -----------------------------------------------------------------------------

/// One parameter piece (already trimmed and not empty): `name: type` or just `name`.
pub open spec fn param_model_of(p: Seq<char>) -> (Seq<char>, Option<Seq<char>>, bool, bool) {
    let has_default = has_substring(p, "="@);
    let is_variadic = has_substring(p, "..."@);
    match find_first(p, ":"@) {
        Some(c) => (trim_spec(p.take(c)), Some(trim_spec(p.skip(c + 1))), has_default, is_variadic),
        None => (p, None, has_default, is_variadic),
    }
}

/// The parameters of the comma-separated pieces, empty pieces skipped.
pub open spec fn params_of_pieces(pieces: Seq<Seq<char>>) -> Seq<(Seq<char>, Option<Seq<char>>, bool, bool)>
    decreases pieces.len(),
{
    if pieces.len() == 0 {
        Seq::empty()
    } else {
        let rest = params_of_pieces(pieces.drop_last());
        let p = trim_spec(pieces.last());
        if p.len() == 0 {
            rest
        } else {
            rest.push(param_model_of(p))
        }
    }
}

/// The parameters of a signature: the pieces between the first `(` and the first `)`.
pub open spec fn spec_signature_params(sig: Seq<char>) -> Seq<(Seq<char>, Option<Seq<char>>, bool, bool)> {
    match (find_first(sig, "("@), find_first(sig, ")"@)) {
        (Some(a), Some(b)) => params_of_pieces(split_char_spec(sig.subrange(a + 1, b), ',')),
        _ => Seq::empty(),
    }
}

/// The return type of a signature: the text after the first `->`, trimmed, unless empty or a
/// lone `:`; trailing colons are dropped.
pub open spec fn spec_signature_return(sig: Seq<char>) -> Option<Seq<char>> {
    match find_first(sig, "->"@) {
        Some(a) => {
            let ret = trim_spec(sig.skip(a + 2));
            if ret.len() > 0 && ret != ":"@ {
                Some(trim_spec(trim_end_matches_spec(ret, ':')))
            } else {
                None
            }
        },
        None => None,
    }
}

fn to_string(v: &Vec<char>) -> (r: String)
    ensures
        r@ == v@,
{
    string_from_chars(v.as_slice())
}

/// Parse a function signature like `(a: Type, b: Type) -> ReturnType` into its parameters
/// and return type.
pub fn parse_signature(sig: &str) -> (r: (Vec<ParameterInfo>, Option<String>))
    requires
        signature_readable(sig@),
    ensures
        parameter_info_models(r.0@) == spec_signature_params(sig@),
        opt_view(r.1) == spec_signature_return(sig@),
{
    let s = str_chars(sig);
    let n = s.len();
    let open = str_chars("(");
    let close = str_chars(")");
    let arrow = str_chars("->");
    let mut params: Vec<ParameterInfo> = Vec::new();
    proof {
        reveal_strlit("(");
        reveal_strlit(")");
        assert("("@ =~= seq!['(']);
        assert(")"@ =~= seq![')']);
        crate::text::lemma_find_from_bounds(sig@, ")"@, 0);
        crate::text::lemma_find_from_bounds(sig@, "("@, 0);
    }
    match (find(s.as_slice(), open.as_slice()), find(s.as_slice(), close.as_slice())) {
        (Some(params_start), Some(params_end)) => {
            let inner = slice_chars(s.as_slice(), params_start + 1, params_end);
            let pieces = split_char(inner.as_slice(), ',');
            let ghost ps = split_char_spec(inner@, ',');
            let mut i: usize = 0;
            assert(parameter_info_models(params@) =~= params_of_pieces(ps.take(0)));
            while i < pieces.len()
                invariant
                    i <= pieces@.len(),
                    deep_chars(pieces@) == ps,
                    parameter_info_models(params@) == params_of_pieces(ps.take(i as int)),
                decreases pieces@.len() - i,
            {
                proof {
                    assert(ps.take(i as int + 1).drop_last() =~= ps.take(i as int));
                    assert(ps.take(i as int + 1).last() == pieces@[i as int]@);
                }
                let param = trim(pieces[i].as_slice());
                if param.len() > 0 {
                    let has_default = str_contains(param.as_slice(), "=");
                    let is_variadic = str_contains(param.as_slice(), "...");
                    let colon = str_chars(":");
                    proof {
                        reveal_strlit(":");
                        crate::text::lemma_find_from_bounds(param@, ":"@, 0);
                    }
                    let info = match find(param.as_slice(), colon.as_slice()) {
                        Some(colon_pos) => {
                            let name_raw = slice_chars(param.as_slice(), 0, colon_pos);
                            let type_raw = slice_chars(param.as_slice(), colon_pos + 1, param.len());
                            assert(name_raw@ =~= param@.take(colon_pos as int));
                            assert(type_raw@ =~= param@.skip(colon_pos + 1));
                            let name = trim(name_raw.as_slice());
                            let type_str = trim(type_raw.as_slice());
                            ParameterInfo {
                                name: to_string(&name),
                                param_type: Some(to_string(&type_str)),
                                has_default,
                                is_variadic,
                            }
                        },
                        None => ParameterInfo {
                            name: to_string(&param),
                            param_type: None,
                            has_default,
                            is_variadic,
                        },
                    };
                    let ghost before = params@;
                    params.push(info);
                    assert(parameter_info_models(params@) =~= parameter_info_models(before).push(
                        param_model_of(param@),
                    ));
                }
                i = i + 1;
            }
            assert(ps.take(i as int) =~= ps);
        },
        _ => {},
    }
    // Look for the return type arrow
    proof {
        reveal_strlit("->");
        crate::text::lemma_find_from_bounds(sig@, "->"@, 0);
    }
    let return_type = match find(s.as_slice(), arrow.as_slice()) {
        Some(arrow_pos) => {
            let after = slice_chars(s.as_slice(), arrow_pos + 2, n);
            assert(after@ =~= sig@.skip(arrow_pos + 2));
            let ret = trim(after.as_slice());
            if ret.len() > 0 && !str_equals(ret.as_slice(), ":") {
                let stripped = trim_end_matches_char(ret.as_slice(), ':');
                let t = trim(stripped.as_slice());
                Some(to_string(&t))
            } else {
                None
            }
        },
        None => None,
    };
    (params, return_type)
}

// -----------------------------------------------------------------------------
// Symbol information and details
// -----------------------------------------------------------------------------

/// A relationship as plain values: symbol, is reference, is implementation, is type
/// definition, is definition.
pub open spec fn relationship_model(r: Relationship) -> (Seq<char>, bool, bool, bool, bool) {
    (r.symbol@, r.is_reference, r.is_implementation, r.is_type_definition, r.is_definition)
}

/// Symbol information as plain values.
pub struct SymbolInfoModel {
    pub symbol: Seq<char>,
    pub documentation: Seq<Seq<char>>,
    pub relationships: Seq<(Seq<char>, bool, bool, bool, bool)>,
    pub kind: i32,
    pub display_name: Seq<char>,
    pub signature: Option<Seq<char>>,
    pub enclosing_symbol: Seq<char>,
}

pub open spec fn relationship_models(rs: Seq<Relationship>) -> Seq<(Seq<char>, bool, bool, bool, bool)> {
    rs.map_values(|r: Relationship| relationship_model(r))
}

pub open spec fn info_model(i: SymbolInformation) -> SymbolInfoModel {
    SymbolInfoModel {
        symbol: i.symbol@,
        documentation: views(i.documentation@),
        relationships: relationship_models(i.relationships@),
        kind: i.kind,
        display_name: i.display_name@,
        signature: match i.signature_documentation {
            Some(d) => Some(d.text@),
            None => None,
        },
        enclosing_symbol: i.enclosing_symbol@,
    }
}

/// The information assumed for a symbol the index does not describe.
pub open spec fn default_info_model(symbol: Seq<char>) -> SymbolInfoModel {
    SymbolInfoModel {
        symbol,
        documentation: Seq::empty(),
        relationships: Seq::empty(),
        kind: 0,
        display_name: symbol,
        signature: None,
        enclosing_symbol: Seq::empty(),
    }
}

/// The signature of the information, when it has one, can be read.
pub open spec fn info_readable(i: SymbolInfoModel) -> bool {
    match i.signature {
        Some(t) => signature_readable(t),
        None => true,
    }
}

fn clone_strings(v: &Vec<String>) -> (r: Vec<String>)
    ensures
        r@ == v@,
{
    let mut r: Vec<String> = Vec::new();
    let mut i: usize = 0;
    while i < v.len()
        invariant
            i <= v@.len(),
            r@ == v@.take(i as int),
        decreases v@.len() - i,
    {
        r.push(v[i].clone());
        assert(r@ =~= v@.take(i as int + 1));
        i = i + 1;
    }
    assert(v@.take(i as int) =~= v@);
    r
}

fn clone_info(info: &SymbolInformation) -> (r: SymbolInformation)
    ensures
        info_model(r) == info_model(*info),
{
    let mut relationships: Vec<Relationship> = Vec::new();
    let mut i: usize = 0;
    while i < info.relationships.len()
        invariant
            i <= info.relationships@.len(),
            relationship_models(relationships@) == relationship_models(info.relationships@.take(i as int)),
        decreases info.relationships@.len() - i,
    {
        let rel = &info.relationships[i];
        let copy = Relationship {
            symbol: rel.symbol.clone(),
            is_reference: rel.is_reference,
            is_implementation: rel.is_implementation,
            is_type_definition: rel.is_type_definition,
            is_definition: rel.is_definition,
        };
        let ghost before = relationships@;
        relationships.push(copy);
        proof {
            assert(relationships@ == before.push(copy));
            assert(relationship_model(copy) == relationship_model(*rel));
            assert(info.relationships@.take(i as int + 1)[i as int] == *rel);
            let a = relationship_models(relationships@);
            let b = relationship_models(info.relationships@.take(i as int + 1));
            let a0 = relationship_models(before);
            let b0 = relationship_models(info.relationships@.take(i as int));
            assert(a0.len() == before.len());
            assert(b0.len() == i);
            assert(a0 == b0);
            assert(a.len() == before.len() + 1);
            assert(a.len() == b.len());
            assert forall|k: int| 0 <= k < a.len() implies a[k] == b[k] by {
                if k < i {
                    assert(relationships@[k] == before[k]);
                    assert(a[k] == a0[k]);
                    assert(b[k] == b0[k]);
                }
            }
            assert(a =~= b);
        }
        i = i + 1;
    }
    assert(info.relationships@.take(i as int) =~= info.relationships@);
    let signature_documentation = match &info.signature_documentation {
        Some(d) => Some(crate::scip::SignatureDocumentation { text: d.text.clone() }),
        None => None,
    };
    let r = SymbolInformation {
        symbol: info.symbol.clone(),
        documentation: clone_strings(&info.documentation),
        relationships,
        kind: info.kind,
        display_name: info.display_name.clone(),
        signature_documentation,
        enclosing_symbol: info.enclosing_symbol.clone(),
    };
    assert(info_model(r).relationships =~= info_model(*info).relationships);
    r
}

/// Create default symbol information for a symbol the index does not describe
pub fn create_default_symbol_info(symbol: &str) -> (r: SymbolInformation)
    ensures
        info_model(r) == default_info_model(symbol@),
{
    let r = SymbolInformation {
        symbol: symbol.to_string(),
        display_name: symbol.to_string(),
        kind: 0,
        documentation: Vec::new(),
        relationships: Vec::new(),
        signature_documentation: None,
        enclosing_symbol: String::new(),
    };
    assert(info_model(r).documentation =~= Seq::<Seq<char>>::empty());
    assert(info_model(r).relationships =~= Seq::<(Seq<char>, bool, bool, bool, bool)>::empty());
    r
}

/// The symbol of the first type-definition relationship.
pub open spec fn first_type_definition(rels: Seq<(Seq<char>, bool, bool, bool, bool)>) -> Option<Seq<char>>
    decreases rels.len(),
{
    if rels.len() == 0 {
        None
    } else {
        match first_type_definition(rels.drop_last()) {
            Some(s) => Some(s),
            None => if rels.last().3 {
                Some(rels.last().0)
            } else {
                None
            },
        }
    }
}

/// The symbols of the relationships that have the selected flag (1: reference,
/// 2: implementation).
pub open spec fn related_symbols(rels: Seq<(Seq<char>, bool, bool, bool, bool)>, implementation: bool) -> Seq<
    Seq<char>,
>
    decreases rels.len(),
{
    if rels.len() == 0 {
        Seq::empty()
    } else {
        let rest = related_symbols(rels.drop_last(), implementation);
        let r = rels.last();
        if (implementation && r.2) || (!implementation && r.1) {
            rest.push(r.0)
        } else {
            rest
        }
    }
}

/// Function details: parameters and return type from the signature documentation, else the
/// return type from the first type-definition relationship; abstract for kind 66 (abstract
/// method), constructor for kind 9.
pub open spec fn spec_function_details(info: SymbolInfoModel) -> FunctionDetailsModel {
    let params = match info.signature {
        Some(t) => spec_signature_params(t),
        None => Seq::empty(),
    };
    let from_signature = match info.signature {
        Some(t) => match spec_signature_return(t) {
            Some(r) => seq![r],
            None => Seq::empty(),
        },
        None => Seq::empty(),
    };
    let return_types = if from_signature.len() == 0 {
        match first_type_definition(info.relationships) {
            Some(s) => seq![s],
            None => Seq::empty(),
        }
    } else {
        from_signature
    };
    FunctionDetailsModel {
        parameters: params,
        return_types,
        throws: Seq::empty(),
        type_params: Seq::empty(),
        modifiers: FunctionModifiers {
            is_async: false,
            is_generator: false,
            is_static: false,
            is_abstract: info.kind == 66,
            is_constructor: info.kind == 9,
            visibility: Visibility::Unspecified,
        },
    }
}

/// Extract function details from SCIP symbol info
fn extract_function_details(sym_info: &SymbolInformation) -> (r: FunctionDetails)
    requires
        info_readable(info_model(*sym_info)),
    ensures
        r.model() == spec_function_details(info_model(*sym_info)),
{
    let mut details = FunctionDetails::default();
    // SCIP kind: AbstractMethod = 66
    details.modifiers.is_abstract = sym_info.kind == 66;
    match &sym_info.signature_documentation {
        Some(sig_doc) => {
            let (params, return_type) = parse_signature(sig_doc.text.as_str());
            details.parameters = params;
            match return_type {
                Some(ret) => {
                    let mut v: Vec<String> = Vec::new();
                    v.push(ret);
                    details.return_types = v;
                    assert(views(details.return_types@) =~= seq![ret@]);
                },
                None => {
                    assert(views(details.return_types@) =~= Seq::<Seq<char>>::empty());
                },
            }
        },
        None => {
            assert(views(details.return_types@) =~= Seq::<Seq<char>>::empty());
        },
    }
    let ghost rels = info_model(*sym_info).relationships;
    let ghost before = views(details.return_types@);
    let ghost params_model = parameter_info_models(details.parameters@);
    let mut i: usize = 0;
    while i < sym_info.relationships.len()
        invariant
            i <= sym_info.relationships@.len(),
            rels == info_model(*sym_info).relationships,
            parameter_info_models(details.parameters@) == params_model,
            details.throws@.len() == 0,
            details.type_params@.len() == 0,
            details.modifiers.is_abstract == (sym_info.kind == 66),
            !details.modifiers.is_async,
            !details.modifiers.is_generator,
            !details.modifiers.is_static,
            !details.modifiers.is_constructor,
            details.modifiers.visibility == Visibility::Unspecified,
            views(details.return_types@) == (if before.len() == 0 {
                match first_type_definition(rels.take(i as int)) {
                    Some(s) => seq![s],
                    None => Seq::empty(),
                }
            } else {
                before
            }),
        decreases sym_info.relationships@.len() - i,
    {
        let rel = &sym_info.relationships[i];
        proof {
            assert(rels.take(i as int + 1).drop_last() =~= rels.take(i as int));
            assert(rels.take(i as int + 1).last() == relationship_model(*rel));
        }
        if rel.is_type_definition {
            // First type definition as return type if not already set
            if details.return_types.len() == 0 {
                let mut v: Vec<String> = Vec::new();
                v.push(rel.symbol.clone());
                details.return_types = v;
                assert(views(details.return_types@) =~= seq![rel.symbol@]);
            }
        }
        i = i + 1;
    }
    assert(rels.take(i as int) =~= rels);
    // SCIP kind: Constructor = 9
    details.modifiers.is_constructor = sym_info.kind == 9;
    details.modifiers.visibility = infer_visibility(sym_info.symbol.as_str());
    proof {
        assert(views(details.throws@) =~= Seq::<Seq<char>>::empty());
        assert(crate::domain::semantic::type_param_models(details.type_params@) =~= Seq::<(Seq<char>, Seq<Seq<char>>)>::empty());
        if sym_info.signature_documentation is None {
            assert(parameter_info_models(details.parameters@) =~= Seq::<(Seq<char>, Option<Seq<char>>, bool, bool)>::empty());
            assert(before =~= Seq::<Seq<char>>::empty());
        }
    }
    details
}

pub open spec fn spec_variable_details() -> VariableDetailsModel {
    VariableDetailsModel {
        var_type: None,
        mutability: Mutability::Mutable,
        variable_kind: VariableKind::Global,
        visibility: Visibility::Unspecified,
    }
}

/// Extract variable details (mutable global variable of unknown type)
fn extract_variable_details(sym_info: &SymbolInformation) -> (r: VariableDetails)
    ensures
        r.model() == spec_variable_details(),
{
    VariableDetails {
        var_type: None,
        mutability: Mutability::Mutable,
        variable_kind: VariableKind::Global,
        visibility: infer_visibility(sym_info.symbol.as_str()),
    }
}

pub open spec fn spec_type_kind_of(kind: i32) -> TypeKind {
    if kind == 21 {
        TypeKind::Interface
    } else if kind == 11 {
        TypeKind::Enum
    } else if kind == 49 {
        TypeKind::Struct
    } else if kind == 53 {
        TypeKind::Trait
    } else {
        TypeKind::Class
    }
}

/// Type details: the kind from the SCIP kind number (interfaces and traits are abstract),
/// implementations and references from the relationships.
pub open spec fn spec_type_details(info: SymbolInfoModel) -> TypeDetailsModel {
    let kind = spec_type_kind_of(info.kind);
    TypeDetailsModel {
        kind,
        is_abstract: kind == TypeKind::Interface || kind == TypeKind::Trait,
        is_final: false,
        visibility: Visibility::Unspecified,
        type_params: Seq::empty(),
        fields: Seq::empty(),
        implements: related_symbols(info.relationships, true),
        inherits: related_symbols(info.relationships, false),
    }
}

/// Extract type details
fn extract_type_details(sym_info: &SymbolInformation) -> (r: TypeDetails)
    ensures
        r.model() == spec_type_details(info_model(*sym_info)),
{
    // SCIP kind values: Interface = 21, Enum = 11, Struct = 49, Trait = 53
    let kind = match sym_info.kind {
        21 => TypeKind::Interface,
        11 => TypeKind::Enum,
        49 => TypeKind::Struct,
        53 => TypeKind::Trait,
        _ => TypeKind::Class,
    };
    let is_abstract = kind == TypeKind::Interface || kind == TypeKind::Trait;
    let mut details = TypeDetails {
        kind,
        is_abstract,
        is_final: false,
        visibility: infer_visibility(sym_info.symbol.as_str()),
        type_params: Vec::new(),
        fields: Vec::new(),
        implements: Vec::new(),
        inherits: Vec::new(),
    };
    let ghost rels = info_model(*sym_info).relationships;
    let mut i: usize = 0;
    assert(views(details.implements@) =~= related_symbols(rels.take(0), true));
    assert(views(details.inherits@) =~= related_symbols(rels.take(0), false));
    while i < sym_info.relationships.len()
        invariant
            i <= sym_info.relationships@.len(),
            rels == info_model(*sym_info).relationships,
            views(details.implements@) == related_symbols(rels.take(i as int), true),
            views(details.inherits@) == related_symbols(rels.take(i as int), false),
            details.type_params@.len() == 0,
            details.fields@.len() == 0,
            details.kind == spec_type_kind_of(sym_info.kind),
            details.is_abstract == (details.kind == TypeKind::Interface || details.kind == TypeKind::Trait),
            !details.is_final,
            details.visibility == Visibility::Unspecified,
        decreases sym_info.relationships@.len() - i,
    {
        let rel = &sym_info.relationships[i];
        proof {
            assert(rels.take(i as int + 1).drop_last() =~= rels.take(i as int));
            assert(rels.take(i as int + 1).last() == relationship_model(*rel));
        }
        let ghost imp0 = details.implements@;
        let ghost inh0 = details.inherits@;
        if rel.is_implementation {
            details.implements.push(rel.symbol.clone());
        }
        if rel.is_reference {
            // Could be inheritance
            details.inherits.push(rel.symbol.clone());
        }
        proof {
            if rel.is_implementation {
                assert(views(details.implements@) =~= views(imp0).push(rel.symbol@));
            }
            if rel.is_reference {
                assert(views(details.inherits@) =~= views(inh0).push(rel.symbol@));
            }
        }
        i = i + 1;
    }
    assert(rels.take(i as int) =~= rels);
    assert(crate::domain::semantic::type_param_models(details.type_params@) =~= Seq::<(Seq<char>, Seq<Seq<char>>)>::empty());
    assert(crate::domain::semantic::field_models(details.fields@) =~= Seq::<(Seq<char>, Option<Seq<char>>, Mutability, Visibility)>::empty());
    details
}

/// The details of a symbol of the given kind.
pub open spec fn spec_symbol_details(info: SymbolInfoModel, kind: SymbolKind) -> SymbolDetailsModel {
    match kind {
        SymbolKind::Function | SymbolKind::Method | SymbolKind::Constructor => SymbolDetailsModel::Function(
            spec_function_details(info),
        ),
        SymbolKind::Variable | SymbolKind::Field | SymbolKind::Constant => SymbolDetailsModel::Variable(
            spec_variable_details(),
        ),
        SymbolKind::Class | SymbolKind::Interface | SymbolKind::Struct | SymbolKind::Enum
        | SymbolKind::Trait | SymbolKind::Protocol | SymbolKind::TypeAlias => SymbolDetailsModel::Type(
            spec_type_details(info),
        ),
        _ => SymbolDetailsModel::Empty,
    }
}

/// Extract SymbolDetails from SCIP SymbolInformation
fn extract_symbol_details(sym_info: &SymbolInformation, kind: SymbolKind) -> (r: SymbolDetails)
    requires
        info_readable(info_model(*sym_info)),
    ensures
        r.model() == spec_symbol_details(info_model(*sym_info), kind),
{
    match kind {
        SymbolKind::Function | SymbolKind::Method | SymbolKind::Constructor => SymbolDetails::Function(
            extract_function_details(sym_info),
        ),
        SymbolKind::Variable | SymbolKind::Field | SymbolKind::Constant => SymbolDetails::Variable(
            extract_variable_details(sym_info),
        ),
        SymbolKind::Class | SymbolKind::Interface | SymbolKind::Struct | SymbolKind::Enum
        | SymbolKind::Trait | SymbolKind::Protocol | SymbolKind::TypeAlias => SymbolDetails::Type(
            extract_type_details(sym_info),
        ),
        // Parameter details are handled by the parent function
        _ => SymbolDetails::Empty,
    }
}

/// The kind of a symbol: from the SCIP kind number, else from the symbol string.
pub open spec fn kind_for(info: SymbolInfoModel, symbol: Seq<char>) -> SymbolKind {
    let k = spec_convert_scip_kind(info.kind);
    if k == SymbolKind::Unknown {
        spec_infer_kind_from_symbol(symbol)
    } else {
        k
    }
}

/// The range of the definition of an occurrence: its enclosing range when it has one.
pub open spec fn body_range(occ: Occurrence) -> (i32, i32, i32, i32) {
    if occ.enclosing_range@.len() > 0 {
        spec_parse_range(occ.enclosing_range@)
    } else {
        spec_parse_range(occ.range@)
    }
}

/// The definition made from a defining occurrence in the document at `path`.
pub open spec fn spec_occurrence_definition(
    occ: Occurrence,
    info: SymbolInfoModel,
    enclosing: Option<Seq<char>>,
    path: Seq<char>,
) -> SymbolDefinitionModel {
    let name_range = spec_parse_range(occ.range@);
    let body = body_range(occ);
    let kind = kind_for(info, occ.symbol@);
    SymbolDefinitionModel {
        symbol_id: occ.symbol@,
        kind,
        name: info.display_name,
        display_name: occ.symbol@,
        location: (path, name_range.0 as u32, name_range.1 as u32),
        span: SourceSpan {
            start_line: body.0 as u32,
            start_column: body.1 as u32,
            end_line: body.2 as u32,
            end_column: body.3 as u32,
        },
        enclosing_symbol: enclosing,
        is_external: false,
        documentation: info.documentation,
        details: spec_symbol_details(info, kind),
    }
}

fn body_range_exec(occ: &Occurrence) -> (r: (i32, i32, i32, i32))
    ensures
        r == body_range(*occ),
{
    if occ.enclosing_range.len() > 0 {
        parse_range(occ.enclosing_range.as_slice())
    } else {
        parse_range(occ.range.as_slice())
    }
}

/// Convert a defining SCIP occurrence to a SymbolDefinition
fn convert_occurrence_to_definition(
    occ: &Occurrence,
    sym_info: &SymbolInformation,
    enclosing: Option<String>,
    doc: &Document,
) -> (r: SymbolDefinition)
    requires
        info_readable(info_model(*sym_info)),
    ensures
        r.model() == spec_occurrence_definition(*occ, info_model(*sym_info), opt_view(enclosing), doc.relative_path@),
{
    let (name_start, name_col, _name_end, _name_end_col) = parse_range(occ.range.as_slice());
    let (body_start, body_col, body_end, body_end_col) = body_range_exec(occ);
    let mut kind = convert_scip_kind(sym_info.kind);
    // If the SCIP kind is unknown, infer it from the symbol string
    if kind == SymbolKind::Unknown {
        kind = infer_kind_from_symbol(occ.symbol.as_str());
    }
    let details = extract_symbol_details(sym_info, kind);
    SymbolDefinition {
        symbol_id: occ.symbol.clone(),
        kind,
        name: sym_info.display_name.clone(),
        display_name: occ.symbol.clone(),
        location: SourceLocation {
            file_path: doc.relative_path.clone(),
            line: name_start as u32,
            column: name_col as u32,
        },
        span: SourceSpan {
            start_line: body_start as u32,
            start_column: body_col as u32,
            end_line: body_end as u32,
            end_column: body_end_col as u32,
        },
        enclosing_symbol: enclosing,
        is_external: false,
        documentation: clone_strings(&sym_info.documentation),
        details,
    }
}

/// The definition made from symbol information alone (no location or span).
pub open spec fn spec_symbol_definition(info: SymbolInfoModel, is_external: bool, enclosing: Option<Seq<char>>) -> SymbolDefinitionModel {
    let kind = kind_for(info, info.symbol);
    SymbolDefinitionModel {
        symbol_id: info.symbol,
        kind,
        name: info.display_name,
        display_name: info.display_name,
        location: (Seq::empty(), 0u32, 0u32),
        span: SourceSpan { start_line: 0, start_column: 0, end_line: 0, end_column: 0 },
        enclosing_symbol: if info.enclosing_symbol.len() == 0 {
            enclosing
        } else {
            Some(info.enclosing_symbol)
        },
        is_external,
        documentation: info.documentation,
        details: spec_symbol_details(info, kind),
    }
}

/// Convert SCIP SymbolInformation to a SymbolDefinition (for external symbols)
fn convert_symbol_to_definition(
    sym_info: &SymbolInformation,
    is_external: bool,
    enclosing: Option<String>,
) -> (r: SymbolDefinition)
    requires
        info_readable(info_model(*sym_info)),
    ensures
        r.model() == spec_symbol_definition(info_model(*sym_info), is_external, opt_view(enclosing)),
{
    let mut kind = convert_scip_kind(sym_info.kind);
    // If the SCIP kind is unknown, infer it from the symbol string
    if kind == SymbolKind::Unknown {
        kind = infer_kind_from_symbol(sym_info.symbol.as_str());
    }
    let details = extract_symbol_details(sym_info, kind);
    let enclosing_symbol = if sym_info.enclosing_symbol.as_str().is_empty() {
        enclosing
    } else {
        Some(sym_info.enclosing_symbol.clone())
    };
    SymbolDefinition {
        symbol_id: sym_info.symbol.clone(),
        kind,
        name: sym_info.display_name.clone(),
        display_name: sym_info.display_name.clone(),
        location: SourceLocation { file_path: String::new(), line: 0, column: 0 },
        span: SourceSpan { start_line: 0, start_column: 0, end_line: 0, end_column: 0 },
        enclosing_symbol,
        is_external,
        documentation: clone_strings(&sym_info.documentation),
        details,
    }
}

// -----------------------------------------------------------------------------
// Enclosing symbols
// -----------------------------------------------------------------------------

/// The definition locations as plain values.
pub open spec fn locations_view(v: Seq<(String, (i32, i32, i32, i32))>) -> Seq<(Seq<char>, (i32, i32, i32, i32))> {
    v.map_values(|p: (String, (i32, i32, i32, i32))| (p.0@, p.1))
}

/// `loc` encloses the range from (`line`, `col`) to (`end_line`, `end_col`).
pub open spec fn encloses_range(loc: (i32, i32, i32, i32), line: i32, col: i32, end_line: i32, end_col: i32) -> bool {
    (loc.0 < line || (loc.0 == line && loc.1 <= col)) && (loc.2 > end_line || (loc.2 == end_line
        && loc.3 >= end_col))
}

/// The size of a location: lines count a thousand, columns one.
pub open spec fn loc_area(loc: (i32, i32, i32, i32)) -> int {
    (loc.2 - loc.0) * 1000 + (loc.3 - loc.1)
}

/// Among the first `n` locations, the first of the smallest that enclose the range and are
/// not the excluded symbol.
pub open spec fn enclosing_best(
    locs: Seq<(Seq<char>, (i32, i32, i32, i32))>,
    line: i32,
    col: i32,
    end_line: i32,
    end_col: i32,
    exclude: Seq<char>,
    n: int,
) -> Option<int>
    decreases n,
{
    if n <= 0 {
        None
    } else {
        let prev = enclosing_best(locs, line, col, end_line, end_col, exclude, n - 1);
        let l = locs[n - 1];
        if l.0 != exclude && encloses_range(l.1, line, col, end_line, end_col) {
            match prev {
                Some(p) => if loc_area(l.1) < loc_area(locs[p].1) {
                    Some(n - 1)
                } else {
                    prev
                },
                None => Some(n - 1),
            }
        } else {
            prev
        }
    }
}

/// The enclosing symbol of a range: the smallest definition location that encloses it.
pub open spec fn spec_enclosing_symbol(
    locs: Seq<(Seq<char>, (i32, i32, i32, i32))>,
    line: i32,
    col: i32,
    end_line: i32,
    end_col: i32,
    exclude: Seq<char>,
) -> Option<Seq<char>> {
    match enclosing_best(locs, line, col, end_line, end_col, exclude, locs.len() as int) {
        Some(i) => Some(locs[i].0),
        None => None,
    }
}

/// Find the enclosing symbol for a range: the smallest definition location (lines weigh a
/// thousand columns) that encloses it, other than `exclude_symbol`.
fn find_enclosing_symbol(
    line: i32,
    col: i32,
    end_line: i32,
    end_col: i32,
    def_locations: &Vec<(String, (i32, i32, i32, i32))>,
    exclude_symbol: &str,
) -> (r: Option<String>)
    ensures
        opt_view(r) == spec_enclosing_symbol(
            locations_view(def_locations@),
            line,
            col,
            end_line,
            end_col,
            exclude_symbol@,
        ),
{
    let ghost locs = locations_view(def_locations@);
    let mut best: Option<(usize, i64)> = None;
    let mut i: usize = 0;
    while i < def_locations.len()
        invariant
            i <= def_locations@.len(),
            locs == locations_view(def_locations@),
            match best {
                Some((b, area)) => enclosing_best(locs, line, col, end_line, end_col, exclude_symbol@, i as int)
                    == Some(b as int) && b < i && area == loc_area(locs[b as int].1),
                None => enclosing_best(locs, line, col, end_line, end_col, exclude_symbol@, i as int) is None,
            },
        decreases def_locations@.len() - i,
    {
        let (sym, loc) = &def_locations[i];
        let (s_line, s_col, e_line, e_col) = *loc;
        assert(locs[i as int] == (sym@, *loc));
        let sym_chars = str_chars(sym.as_str());
        let excluded = str_equals(sym_chars.as_slice(), exclude_symbol);
        // Does this location enclose the range?
        let encloses = (s_line < line || (s_line == line && s_col <= col)) && (e_line > end_line || (
        e_line == end_line && e_col >= end_col));
        if !excluded && encloses {
            let area: i64 = (e_line as i64 - s_line as i64) * 1000 + (e_col as i64 - s_col as i64);
            match best {
                Some((_, best_area)) => {
                    if area < best_area {
                        best = Some((i, area));
                    }
                },
                None => {
                    best = Some((i, area));
                },
            }
        }
        i = i + 1;
    }
    match best {
        Some((b, _)) => Some(def_locations[b].0.clone()),
        None => None,
    }
}

/// The position of the location of `sym`.
pub open spec fn location_index(locs: Seq<(Seq<char>, (i32, i32, i32, i32))>, sym: Seq<char>) -> Option<int>
    decreases locs.len(),
{
    if locs.len() == 0 {
        None
    } else {
        match location_index(locs.drop_last(), sym) {
            Some(i) => Some(i),
            None => if locs.last().0 == sym {
                Some(locs.len() - 1)
            } else {
                None
            },
        }
    }
}

/// Record the location of `sym` (replacing an earlier one in place).
pub open spec fn locations_insert(
    locs: Seq<(Seq<char>, (i32, i32, i32, i32))>,
    sym: Seq<char>,
    r: (i32, i32, i32, i32),
) -> Seq<(Seq<char>, (i32, i32, i32, i32))> {
    match location_index(locs, sym) {
        Some(i) => locs.update(i, (sym, r)),
        None => locs.push((sym, r)),
    }
}

proof fn lemma_location_index(locs: Seq<(Seq<char>, (i32, i32, i32, i32))>, sym: Seq<char>)
    ensures
        location_index(locs, sym) matches Some(i) ==> 0 <= i < locs.len() && locs[i].0 == sym,
        location_index(locs, sym) is None ==> forall|k: int| 0 <= k < locs.len() ==> locs[k].0 != sym,
    decreases locs.len(),
{
    if locs.len() > 0 {
        lemma_location_index(locs.drop_last(), sym);
        if location_index(locs.drop_last(), sym) is None {
            assert forall|k: int| 0 <= k < locs.len() - 1 implies locs[k].0 != sym by {
                assert(locs.drop_last()[k] == locs[k]);
            }
        }
    }
}

fn insert_location(locs: &mut Vec<(String, (i32, i32, i32, i32))>, sym: &String, r: (i32, i32, i32, i32))
    ensures
        locations_view(final(locs)@) == locations_insert(locations_view(old(locs)@), sym@, r),
{
    let ghost v = locations_view(locs@);
    proof {
        lemma_location_index(v, sym@);
    }
    let mut i: usize = 0;
    while i < locs.len()
        invariant
            i <= locs@.len(),
            v == locations_view(locs@),
            locs@ == old(locs)@,
            forall|k: int| 0 <= k < i ==> v[k].0 != sym@,
        decreases locs@.len() - i,
    {
        if locs[i].0 == *sym {
            proof {
                assert(v[i as int].0 == sym@);
                lemma_location_index_first(v, sym@, i as int);
            }
            locs.set(i, (sym.clone(), r));
            assert(locations_view(locs@) =~= v.update(i as int, (sym@, r)));
            return;
        }
        i = i + 1;
    }
    proof {
        lemma_location_index_none(v, sym@);
    }
    locs.push((sym.clone(), r));
    assert(locations_view(locs@) =~= v.push((sym@, r)));
}

proof fn lemma_location_index_first(locs: Seq<(Seq<char>, (i32, i32, i32, i32))>, sym: Seq<char>, i: int)
    requires
        0 <= i < locs.len(),
        locs[i].0 == sym,
        forall|k: int| 0 <= k < i ==> locs[k].0 != sym,
    ensures
        location_index(locs, sym) == Some(i),
    decreases locs.len(),
{
    if i < locs.len() - 1 {
        assert(locs.drop_last()[i] == locs[i]);
        assert forall|k: int| 0 <= k < i implies locs.drop_last()[k].0 != sym by {
            assert(locs.drop_last()[k] == locs[k]);
        }
        lemma_location_index_first(locs.drop_last(), sym, i);
    } else {
        lemma_location_index_none_prefix(locs.drop_last(), sym);
        assert forall|k: int| 0 <= k < locs.drop_last().len() implies locs.drop_last()[k].0 != sym by {
            assert(locs.drop_last()[k] == locs[k]);
        }
    }
}

proof fn lemma_location_index_none_prefix(locs: Seq<(Seq<char>, (i32, i32, i32, i32))>, sym: Seq<char>)
    ensures
        (forall|k: int| 0 <= k < locs.len() ==> locs[k].0 != sym) ==> location_index(locs, sym) is None,
    decreases locs.len(),
{
    if locs.len() > 0 {
        lemma_location_index_none_prefix(locs.drop_last(), sym);
        if forall|k: int| 0 <= k < locs.len() ==> locs[k].0 != sym {
            assert forall|k: int| 0 <= k < locs.drop_last().len() implies locs.drop_last()[k].0 != sym by {
                assert(locs.drop_last()[k] == locs[k]);
            }
            assert(locs[locs.len() - 1] == locs.last());
        }
    }
}

proof fn lemma_location_index_none(locs: Seq<(Seq<char>, (i32, i32, i32, i32))>, sym: Seq<char>)
    requires
        forall|k: int| 0 <= k < locs.len() ==> locs[k].0 != sym,
    ensures
        location_index(locs, sym) is None,
{
    lemma_location_index_none_prefix(locs, sym);
}

// -----------------------------------------------------------------------------
// Documents
// -----------------------------------------------------------------------------

/// The symbol table as plain values.
pub open spec fn table_view(m: Map<Seq<char>, SymbolInformation>) -> Map<Seq<char>, SymbolInfoModel> {
    m.map_values(|i: SymbolInformation| info_model(i))
}

/// The information of a symbol: from the table, else the default.
pub open spec fn info_lookup(table: Map<Seq<char>, SymbolInfoModel>, sym: Seq<char>) -> SymbolInfoModel {
    if table.contains_key(sym) {
        table[sym]
    } else {
        default_info_model(sym)
    }
}

/// Every signature in the table can be read.
pub open spec fn table_readable(table: Map<Seq<char>, SymbolInfoModel>) -> bool {
    forall|k: Seq<char>| #[trigger] table.contains_key(k) ==> info_readable(table[k])
}

pub open spec fn is_definition_occurrence(occ: Occurrence) -> bool {
    occ.symbol_roles & ROLE_DEFINITION != 0 && !is_prefix("local "@, occ.symbol@)
}

/// The defining occurrences (local symbols left out), in order.
pub open spec fn def_occurrences(occs: Seq<Occurrence>) -> Seq<Occurrence>
    decreases occs.len(),
{
    if occs.len() == 0 {
        Seq::empty()
    } else if is_definition_occurrence(occs.last()) {
        def_occurrences(occs.drop_last()).push(occs.last())
    } else {
        def_occurrences(occs.drop_last())
    }
}

/// The definition locations of the defining occurrences, keyed by symbol.
pub open spec fn locations_of(defs: Seq<Occurrence>) -> Seq<(Seq<char>, (i32, i32, i32, i32))>
    decreases defs.len(),
{
    if defs.len() == 0 {
        Seq::empty()
    } else {
        locations_insert(locations_of(defs.drop_last()), defs.last().symbol@, body_range(defs.last()))
    }
}

/// The definitions of the defining occurrences `defs`, each with its enclosing symbol.
pub open spec fn definitions_of(
    table: Map<Seq<char>, SymbolInfoModel>,
    locs: Seq<(Seq<char>, (i32, i32, i32, i32))>,
    path: Seq<char>,
    defs: Seq<Occurrence>,
) -> Seq<SymbolDefinitionModel>
    decreases defs.len(),
{
    if defs.len() == 0 {
        Seq::empty()
    } else {
        let occ = defs.last();
        let r = body_range(occ);
        definitions_of(table, locs, path, defs.drop_last()).push(
            spec_occurrence_definition(
                occ,
                info_lookup(table, occ.symbol@),
                spec_enclosing_symbol(locs, r.0, r.1, r.2, r.3, occ.symbol@),
                path,
            ),
        )
    }
}

/// The references of the non-defining occurrences of non-local symbols that lie inside
/// some definition.
pub open spec fn references_of(
    locs: Seq<(Seq<char>, (i32, i32, i32, i32))>,
    path: Seq<char>,
    occs: Seq<Occurrence>,
) -> Seq<SymbolReferenceModel>
    decreases occs.len(),
{
    if occs.len() == 0 {
        Seq::empty()
    } else {
        let rest = references_of(locs, path, occs.drop_last());
        let occ = occs.last();
        if occ.symbol_roles & ROLE_DEFINITION == 0 && occ.symbol@.len() > 0 && !is_prefix(
            "local "@,
            occ.symbol@,
        ) {
            let r = spec_parse_range(occ.range@);
            match spec_enclosing_symbol(locs, r.0, r.1, r.0, r.1, Seq::empty()) {
                Some(e) => rest.push(
                    SymbolReferenceModel {
                        target_symbol: occ.symbol@,
                        location: (path, r.0 as u32, r.1 as u32),
                        enclosing_symbol: e,
                        role: spec_convert_scip_role(occ.symbol_roles),
                        context: None,
                    },
                ),
                None => rest,
            }
        } else {
            rest
        }
    }
}

/// Every reference read from a document comes from one of its occurrences of the same
/// symbol, not a definition, and is a write exactly when that occurrence has the
/// write-access bit (4).
pub proof fn law_references_carry_occurrence_roles(
    locs: Seq<(Seq<char>, (i32, i32, i32, i32))>,
    path: Seq<char>,
    occs: Seq<Occurrence>,
)
    ensures
        forall|i: int| 0 <= i < references_of(locs, path, occs).len() ==> exists|j: int|
            0 <= j < occs.len() && #[trigger] occs[j].symbol@ == (#[trigger] references_of(locs, path, occs)[i]).target_symbol
                && occs[j].symbol_roles & 1i32 == 0
                && ((references_of(locs, path, occs)[i].role == ReferenceRole::Write) <==> (
                occs[j].symbol_roles & 4i32 != 0)),
    decreases occs.len(),
{
    if occs.len() > 0 {
        let d = occs.drop_last();
        law_references_carry_occurrence_roles(locs, path, d);
        let refs = references_of(locs, path, occs);
        let prev = references_of(locs, path, d);
        assert forall|i: int| 0 <= i < refs.len() implies exists|j: int|
            0 <= j < occs.len() && #[trigger] occs[j].symbol@ == (#[trigger] refs[i]).target_symbol
                && occs[j].symbol_roles & 1i32 == 0
                && ((refs[i].role == ReferenceRole::Write) <==> (occs[j].symbol_roles & 4i32 != 0)) by {
            if i < prev.len() {
                assert(refs[i] == prev[i]);
                let j = choose|j: int|
                    0 <= j < d.len() && #[trigger] d[j].symbol@ == (#[trigger] prev[i]).target_symbol
                        && d[j].symbol_roles & 1i32 == 0
                        && ((prev[i].role == ReferenceRole::Write) <==> (d[j].symbol_roles & 4i32 != 0));
                assert(occs[j] == d[j]);
            } else {
                let k = occs.len() - 1;
                assert(occs[k] == occs.last());
                law_scip_role_follows_access_bits(occs.last().symbol_roles);
            }
        }
    }
}

fn lookup_or_default(table: &vstd::hash_map::StringHashMap<SymbolInformation>, sym: &String) -> (r: SymbolInformation)
    ensures
        info_model(r) == info_lookup(table_view(table@), sym@),
{
    match table.get(sym.as_str()) {
        Some(info) => clone_info(info),
        None => create_default_symbol_info(sym.as_str()),
    }
}

fn is_local_symbol(s: &String) -> (r: bool)
    ensures
        r == is_prefix("local "@, s@),
{
    let c = str_chars(s.as_str());
    str_starts_with(c.as_slice(), "local ")
}

/// Process a single SCIP document: its definitions (each with its enclosing definition) and
/// the references made inside definitions.
fn process_document(
    doc: &Document,
    symbol_map: &vstd::hash_map::StringHashMap<SymbolInformation>,
) -> (r: (Vec<SymbolDefinition>, Vec<SymbolReference>))
    requires
        table_readable(table_view(symbol_map@)),
    ensures
        ({
            let occs = doc.occurrences@;
            let locs = locations_of(def_occurrences(occs));
            &&& definition_models(r.0@) == definitions_of(
                table_view(symbol_map@),
                locs,
                doc.relative_path@,
                def_occurrences(occs),
            )
            &&& reference_models(r.1@) == references_of(locs, doc.relative_path@, occs)
        }),
{
    let ghost occs = doc.occurrences@;
    let ghost table = table_view(symbol_map@);
    // First pass: the definition locations
    let mut def_locations: Vec<(String, (i32, i32, i32, i32))> = Vec::new();
    let mut def_indices: Vec<usize> = Vec::new();
    let mut i: usize = 0;
    assert(locations_view(def_locations@) =~= locations_of(def_occurrences(occs.take(0))));
    while i < doc.occurrences.len()
        invariant
            i <= occs.len(),
            occs == doc.occurrences@,
            locations_view(def_locations@) == locations_of(def_occurrences(occs.take(i as int))),
            def_indices@.len() == def_occurrences(occs.take(i as int)).len(),
            forall|k: int|
                0 <= k < def_indices@.len() ==> #[trigger] def_indices@[k] < i && occs[def_indices@[k] as int]
                    == def_occurrences(occs.take(i as int))[k],
        decreases occs.len() - i,
    {
        let occ = &doc.occurrences[i];
        proof {
            assert(occs.take(i as int + 1).drop_last() =~= occs.take(i as int));
            assert(occs.take(i as int + 1).last() == *occ);
        }
        let ghost d0 = def_occurrences(occs.take(i as int));
        if occ.symbol_roles & ROLE_DEFINITION != 0 && !is_local_symbol(&occ.symbol) {
            let range = body_range_exec(occ);
            insert_location(&mut def_locations, &occ.symbol, range);
            def_indices.push(i);
            proof {
                let d1 = def_occurrences(occs.take(i as int + 1));
                assert(d1 == d0.push(*occ));
                assert(d1.drop_last() =~= d0);
                assert(locations_of(d1) == locations_insert(locations_of(d0), occ.symbol@, body_range(*occ)));
            }
        } else {
            assert(def_occurrences(occs.take(i as int + 1)) == d0);
        }
        i = i + 1;
    }
    assert(occs.take(i as int) =~= occs);
    let ghost defs = def_occurrences(occs);
    let ghost locs = locations_view(def_locations@);
    // Second pass: the definitions
    let mut definitions: Vec<SymbolDefinition> = Vec::new();
    let mut k: usize = 0;
    assert(definition_models(definitions@) =~= definitions_of(table, locs, doc.relative_path@, defs.take(0)));
    while k < def_indices.len()
        invariant
            k <= def_indices@.len(),
            occs == doc.occurrences@,
            table == table_view(symbol_map@),
            table_readable(table),
            locs == locations_view(def_locations@),
            def_indices@.len() == defs.len(),
            forall|m: int|
                0 <= m < def_indices@.len() ==> #[trigger] def_indices@[m] < occs.len() && occs[def_indices@[m] as int]
                    == defs[m],
            definition_models(definitions@) == definitions_of(table, locs, doc.relative_path@, defs.take(k as int)),
        decreases def_indices@.len() - k,
    {
        let occ = &doc.occurrences[def_indices[k]];
        assert(*occ == defs[k as int]);
        proof {
            assert(defs.take(k as int + 1).drop_last() =~= defs.take(k as int));
            assert(defs.take(k as int + 1).last() == *occ);
        }
        let sym_info = lookup_or_default(symbol_map, &occ.symbol);
        proof {
            if table.contains_key(occ.symbol@) {
                assert(info_readable(table[occ.symbol@]));
            }
        }
        let (start_line, start_col, end_line, end_col) = body_range_exec(occ);
        let enclosing = find_enclosing_symbol(
            start_line,
            start_col,
            end_line,
            end_col,
            &def_locations,
            occ.symbol.as_str(),
        );
        let def = convert_occurrence_to_definition(occ, &sym_info, enclosing, doc);
        let ghost before = definitions@;
        definitions.push(def);
        assert(definition_models(definitions@) =~= definition_models(before).push(def.model()));
        k = k + 1;
    }
    assert(defs.take(k as int) =~= defs);
    // Third pass: the references
    let mut references: Vec<SymbolReference> = Vec::new();
    let mut i: usize = 0;
    assert(reference_models(references@) =~= references_of(locs, doc.relative_path@, occs.take(0)));
    while i < doc.occurrences.len()
        invariant
            i <= occs.len(),
            occs == doc.occurrences@,
            locs == locations_view(def_locations@),
            reference_models(references@) == references_of(locs, doc.relative_path@, occs.take(i as int)),
        decreases occs.len() - i,
    {
        let occ = &doc.occurrences[i];
        proof {
            assert(occs.take(i as int + 1).drop_last() =~= occs.take(i as int));
            assert(occs.take(i as int + 1).last() == *occ);
        }
        if occ.symbol_roles & ROLE_DEFINITION == 0 && !occ.symbol.as_str().is_empty() && !is_local_symbol(
            &occ.symbol,
        ) {
            let (line, col, _, _) = parse_range(occ.range.as_slice());
            // Find the enclosing definition
            let enclosing = find_enclosing_symbol(line, col, line, col, &def_locations, "");
            proof {
                reveal_strlit("");
                assert(""@ =~= Seq::<char>::empty());
            }
            match enclosing {
                Some(enclosing_symbol) => {
                    let role = convert_scip_role(occ.symbol_roles, occ.symbol.as_str());
                    let reference = SymbolReference {
                        target_symbol: occ.symbol.clone(),
                        location: SourceLocation {
                            file_path: doc.relative_path.clone(),
                            line: line as u32,
                            column: col as u32,
                        },
                        enclosing_symbol,
                        role,
                        context: None,
                    };
                    let ghost before = references@;
                    references.push(reference);
                    assert(reference_models(references@) =~= reference_models(before).push(
                        reference.model(),
                    ));
                },
                None => {},
            }
        }
        i = i + 1;
    }
    assert(occs.take(i as int) =~= occs);
    (definitions, references)
}

// -----------------------------------------------------------------------------
// The whole index
// -----------------------------------------------------------------------------

/// The symbol information of the documents, document by document.
pub open spec fn doc_symbols(docs: Seq<Document>) -> Seq<SymbolInformation>
    decreases docs.len(),
{
    if docs.len() == 0 {
        Seq::empty()
    } else {
        doc_symbols(docs.drop_last()) + docs.last().symbols@
    }
}

/// `table` with the information of `infos` entered in order (later entries win).
pub open spec fn table_after(table: Map<Seq<char>, SymbolInfoModel>, infos: Seq<SymbolInformation>) -> Map<
    Seq<char>,
    SymbolInfoModel,
>
    decreases infos.len(),
{
    if infos.len() == 0 {
        table
    } else {
        table_after(table, infos.drop_last()).insert(infos.last().symbol@, info_model(infos.last()))
    }
}

/// The global symbol table: the external symbols, then the symbols of the documents.
pub open spec fn index_table(index: Index) -> Map<Seq<char>, SymbolInfoModel> {
    table_after(table_after(Map::empty(), index.external_symbols@), doc_symbols(index.documents@))
}

/// Every signature of the index can be read.
pub open spec fn index_readable(index: Index) -> bool {
    &&& forall|i: int| 0 <= i < index.external_symbols@.len() ==> info_readable(
        #[trigger] info_model(index.external_symbols@[i]),
    )
    &&& forall|d: int, j: int|
        0 <= d < index.documents@.len() && 0 <= j < index.documents@[d].symbols@.len() ==> info_readable(
            #[trigger] info_model(index.documents@[d].symbols@[j]),
        )
}

/// The project root: the metadata's root with a `file://` prefix dropped (empty without
/// metadata).
pub open spec fn spec_project_root(index: Index) -> Seq<char> {
    let raw = match index.metadata {
        Some(m) => m.project_root@,
        None => Seq::empty(),
    };
    crate::text::strip_prefix_or_keep(raw, "file://"@)
}

/// The semantic information of a SCIP document.
pub open spec fn document_matches(out: DocumentSemantics, doc: Document, table: Map<Seq<char>, SymbolInfoModel>) -> bool {
    let occs = doc.occurrences@;
    let locs = locations_of(def_occurrences(occs));
    &&& out.relative_path@ == doc.relative_path@
    &&& out.language@ == doc.language@
    &&& definition_models(out.definitions@) == definitions_of(table, locs, doc.relative_path@, def_occurrences(occs))
    &&& reference_models(out.references@) == references_of(locs, doc.relative_path@, occs)
}

/// The definitions of the external symbols.
pub open spec fn external_definitions(infos: Seq<SymbolInformation>) -> Seq<SymbolDefinitionModel>
    decreases infos.len(),
{
    if infos.len() == 0 {
        Seq::empty()
    } else {
        external_definitions(infos.drop_last()).push(
            spec_symbol_definition(info_model(infos.last()), true, None),
        )
    }
}

fn insert_infos(
    table: &mut vstd::hash_map::StringHashMap<SymbolInformation>,
    infos: &Vec<SymbolInformation>,
)
    requires
        table_readable(table_view(old(table)@)),
        forall|i: int| 0 <= i < infos@.len() ==> info_readable(#[trigger] info_model(infos@[i])),
    ensures
        table_view(final(table)@) == table_after(table_view(old(table)@), infos@),
        table_readable(table_view(final(table)@)),
{
    let ghost start = table_view(table@);
    let mut i: usize = 0;
    while i < infos.len()
        invariant
            i <= infos@.len(),
            table_view(table@) == table_after(start, infos@.take(i as int)),
            table_readable(table_view(table@)),
            forall|k: int| 0 <= k < infos@.len() ==> info_readable(#[trigger] info_model(infos@[k])),
        decreases infos@.len() - i,
    {
        let sym = &infos[i];
        proof {
            assert(infos@.take(i as int + 1).drop_last() =~= infos@.take(i as int));
            assert(infos@.take(i as int + 1).last() == *sym);
        }
        let ghost before = table_view(table@);
        let copy = clone_info(sym);
        table.insert(sym.symbol.clone(), copy);
        proof {
            assert(table_view(table@) =~= before.insert(sym.symbol@, info_model(*sym)));
            assert(info_readable(info_model(infos@[i as int])));
        }
        i = i + 1;
    }
    assert(infos@.take(i as int) =~= infos@);
}

fn info_is_readable(info: &SymbolInformation) -> (r: bool)
    ensures
        r == info_readable(info_model(*info)),
{
    match &info.signature_documentation {
        Some(d) => crate::domain::policy::is_signature_readable(d.text.as_str()),
        None => true,
    }
}

/// Whether `semantic_data_from_index` can read the index: every signature text it holds
/// has its first `(` before its first `)` when it has both.
pub fn index_is_readable(index: &Index) -> (r: bool)
    ensures
        r == index_readable(*index),
{
    let mut i: usize = 0;
    while i < index.external_symbols.len()
        invariant
            i <= index.external_symbols@.len(),
            forall|k: int| 0 <= k < i ==> info_readable(#[trigger] info_model(index.external_symbols@[k])),
        decreases index.external_symbols@.len() - i,
    {
        if !info_is_readable(&index.external_symbols[i]) {
            return false;
        }
        i = i + 1;
    }
    let mut d: usize = 0;
    while d < index.documents.len()
        invariant
            d <= index.documents@.len(),
            forall|k: int| 0 <= k < index.external_symbols@.len() ==> info_readable(
                #[trigger] info_model(index.external_symbols@[k]),
            ),
            forall|d2: int, j2: int|
                0 <= d2 < d && 0 <= j2 < index.documents@[d2].symbols@.len() ==> info_readable(
                    #[trigger] info_model(index.documents@[d2].symbols@[j2]),
                ),
        decreases index.documents@.len() - d,
    {
        let doc = &index.documents[d];
        let mut j: usize = 0;
        while j < doc.symbols.len()
            invariant
                j <= doc.symbols@.len(),
                d < index.documents@.len(),
                *doc == index.documents@[d as int],
                forall|k: int| 0 <= k < index.external_symbols@.len() ==> info_readable(
                    #[trigger] info_model(index.external_symbols@[k]),
                ),
                forall|d2: int, j2: int|
                    0 <= d2 < d && 0 <= j2 < index.documents@[d2].symbols@.len() ==> info_readable(
                        #[trigger] info_model(index.documents@[d2].symbols@[j2]),
                    ),
                forall|j2: int| 0 <= j2 < j ==> info_readable(#[trigger] info_model(index.documents@[d as int].symbols@[j2])),
            decreases doc.symbols@.len() - j,
        {
            if !info_is_readable(&doc.symbols[j]) {
                assert(index.documents@[d as int].symbols@[j as int] == doc.symbols@[j as int]);
                return false;
            }
            j = j + 1;
        }
        d = d + 1;
    }
    true
}

/// Convert a SCIP index to SemanticData: each document with its definitions and references,
/// the external symbols as external definitions, and the project root without `file://`.
pub fn semantic_data_from_index(index: &Index) -> (r: SemanticData)
    requires
        index_readable(*index),
    ensures
        r.project_root@ == spec_project_root(*index),
        r.documents@.len() == index.documents@.len(),
        forall|i: int|
            0 <= i < r.documents@.len() ==> document_matches(
                #[trigger] r.documents@[i],
                index.documents@[i],
                index_table(*index),
            ),
        definition_models(r.external_symbols@) == external_definitions(index.external_symbols@),
{
    // Create a global symbol lookup map
    let mut symbol_map: vstd::hash_map::StringHashMap<SymbolInformation> = vstd::hash_map::StringHashMap::new();
    assert(table_view(symbol_map@) =~= Map::<Seq<char>, SymbolInfoModel>::empty());
    insert_infos(&mut symbol_map, &index.external_symbols);
    let ghost docs = index.documents@;
    let mut d: usize = 0;
    while d < index.documents.len()
        invariant
            d <= docs.len(),
            docs == index.documents@,
            index_readable(*index),
            table_view(symbol_map@) == table_after(
                table_after(Map::empty(), index.external_symbols@),
                doc_symbols(docs.take(d as int)),
            ),
            table_readable(table_view(symbol_map@)),
        decreases docs.len() - d,
    {
        let doc = &index.documents[d];
        proof {
            assert(docs.take(d as int + 1).drop_last() =~= docs.take(d as int));
            assert(doc_symbols(docs.take(d as int + 1)) == doc_symbols(docs.take(d as int)) + doc.symbols@);
            lemma_table_after_concat(
                table_after(Map::empty(), index.external_symbols@),
                doc_symbols(docs.take(d as int)),
                doc.symbols@,
            );
            assert forall|j: int| 0 <= j < doc.symbols@.len() implies info_readable(#[trigger] info_model(doc.symbols@[j])) by {
                assert(docs[d as int].symbols@[j] == doc.symbols@[j]);
            }
        }
        insert_infos(&mut symbol_map, &doc.symbols);
        d = d + 1;
    }
    assert(docs.take(d as int) =~= docs);
    // Process each document
    let mut documents: Vec<DocumentSemantics> = Vec::new();
    let mut d: usize = 0;
    while d < index.documents.len()
        invariant
            d <= docs.len(),
            docs == index.documents@,
            table_view(symbol_map@) == index_table(*index),
            table_readable(table_view(symbol_map@)),
            documents@.len() == d,
            forall|i: int| 0 <= i < d ==> document_matches(#[trigger] documents@[i], docs[i], index_table(*index)),
        decreases docs.len() - d,
    {
        let doc = &index.documents[d];
        let (definitions, references) = process_document(doc, &symbol_map);
        let ds = DocumentSemantics {
            relative_path: doc.relative_path.clone(),
            language: doc.language.clone(),
            definitions,
            references,
        };
        documents.push(ds);
        d = d + 1;
    }
    // Process external symbols
    let mut external_symbols: Vec<SymbolDefinition> = Vec::new();
    let mut i: usize = 0;
    assert(definition_models(external_symbols@) =~= external_definitions(index.external_symbols@.take(0)));
    while i < index.external_symbols.len()
        invariant
            i <= index.external_symbols@.len(),
            index_readable(*index),
            definition_models(external_symbols@) == external_definitions(index.external_symbols@.take(i as int)),
        decreases index.external_symbols@.len() - i,
    {
        let sym = &index.external_symbols[i];
        proof {
            assert(index.external_symbols@.take(i as int + 1).drop_last() =~= index.external_symbols@.take(i as int));
            assert(index.external_symbols@.take(i as int + 1).last() == *sym);
            assert(info_readable(info_model(index.external_symbols@[i as int])));
        }
        let def = convert_symbol_to_definition(sym, true, None);
        let ghost before = external_symbols@;
        external_symbols.push(def);
        assert(definition_models(external_symbols@) =~= definition_models(before).push(def.model()));
        i = i + 1;
    }
    assert(index.external_symbols@.take(i as int) =~= index.external_symbols@);
    // Normalize the project root
    let raw_project_root = match &index.metadata {
        Some(m) => m.project_root.clone(),
        None => String::new(),
    };
    let raw = str_chars(raw_project_root.as_str());
    let root = crate::text::strip_prefix_or_keep_exec(raw.as_slice(), "file://");
    SemanticData { project_root: to_string(&root), documents, external_symbols }
}

/// Entering `a + b` is entering `a`, then `b`.
proof fn lemma_table_after_concat(
    table: Map<Seq<char>, SymbolInfoModel>,
    a: Seq<SymbolInformation>,
    b: Seq<SymbolInformation>,
)
    ensures
        table_after(table, a + b) == table_after(table_after(table, a), b),
    decreases b.len(),
{
    if b.len() == 0 {
        assert(a + b =~= a);
    } else {
        lemma_table_after_concat(table, a, b.drop_last());
        assert((a + b).drop_last() =~= a + b.drop_last());
        assert((a + b).last() == b.last());
    }
}

} // verus!
